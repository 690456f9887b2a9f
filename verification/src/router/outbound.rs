//! The outbound queue: which messages are handed on, and which stay.

use vstd::prelude::*;

use crate::clock::{after, has_passed, is_nan, is_past, micros, micros_of, seconds_after};
use crate::constants::{
    DeliveryMethod, MessageState, DELIVERY_RETRY_WAIT, MAX_DELIVERY_ATTEMPTS, MESSAGE_EXPIRY,
};
use crate::message::{LxMessage, MessageModel};
use crate::router::direct::{
    hops_of, in_state, plan_direct_delivery, planned_delivery, DirectDeliveryPlan,
    DirectDeliveryPlanInput, DirectReusableLinkState,
};

verus! {

/// Progress, in millionths, of a message that was sent in one packet.
pub const PROGRESS_PACKET_SENT: u32 = 500_000;

/// What is to be done with a queued message.
pub ghost enum ActionModel {
    Failed(MessageModel),
    Expired(MessageModel),
    DeliverDirect { message: MessageModel, dest_hash: [u8; 16] },
    PlanDirect { message: MessageModel, dest_hash: [u8; 16], plan: DirectDeliveryPlan },
    DeliverPropagated { message: MessageModel, prop_hash: [u8; 16] },
    DeliverOpportunistic { message: MessageModel, dest_hash: [u8; 16] },
}

/// What is to be done with a queued message.
#[derive(Debug)]
pub enum OutboundAction {
    /// Delivery was attempted too often.
    Failed(LxMessage),
    /// The message is too old.
    Expired(LxMessage),
    DeliverDirect { message: LxMessage, dest_hash: [u8; 16] },
    /// The message stays in the queue.
    PlanDirect { message: LxMessage, dest_hash: [u8; 16], plan: DirectDeliveryPlan },
    DeliverPropagated { message: LxMessage, prop_hash: [u8; 16] },
    /// The message fits one packet.
    DeliverOpportunistic { message: LxMessage, dest_hash: [u8; 16] },
}

impl View for OutboundAction {
    type V = ActionModel;

    open spec fn view(&self) -> ActionModel {
        match self {
            OutboundAction::Failed(m) => ActionModel::Failed(m@),
            OutboundAction::Expired(m) => ActionModel::Expired(m@),
            OutboundAction::DeliverDirect { message, dest_hash } => ActionModel::DeliverDirect {
                message: message@,
                dest_hash: *dest_hash,
            },
            OutboundAction::PlanDirect { message, dest_hash, plan } => ActionModel::PlanDirect {
                message: message@,
                dest_hash: *dest_hash,
                plan: *plan,
            },
            OutboundAction::DeliverPropagated {
                message,
                prop_hash,
            } => ActionModel::DeliverPropagated { message: message@, prop_hash: *prop_hash },
            OutboundAction::DeliverOpportunistic {
                message,
                dest_hash,
            } => ActionModel::DeliverOpportunistic { message: message@, dest_hash: *dest_hash },
        }
    }
}

/// What some messages hold.
pub open spec fn message_models(s: Seq<LxMessage>) -> Seq<MessageModel> {
    Seq::new(s.len(), |i: int| s[i]@)
}

/// What some actions are.
pub open spec fn action_models(s: Seq<OutboundAction>) -> Seq<ActionModel> {
    Seq::new(s.len(), |i: int| s[i]@)
}

/// When a message is due.
pub open spec fn due_at(m: MessageModel) -> i64 {
    if m.next_delivery_attempt > 0 {
        m.next_delivery_attempt
    } else if m.last_delivery_attempt > 0 {
        after(m.last_delivery_attempt, DELIVERY_RETRY_WAIT)
    } else {
        0
    }
}

/// Whether a message is too old to be delivered.
pub open spec fn is_expired(m: MessageModel, now: i64) -> bool {
    !is_nan(m.timestamp) && is_past(micros(m.timestamp), now, MESSAGE_EXPIRY)
}

/// A message that was sent in one packet.
pub open spec fn sent_in_packet(m: MessageModel) -> MessageModel {
    MessageModel { state: MessageState::Sent, progress: PROGRESS_PACKET_SENT, ..m }
}

/// What is to be done with a message for the outbound propagation node.
pub open spec fn propagated_action(m: MessageModel, node: Option<[u8; 16]>) -> Option<ActionModel> {
    match node {
        Some(hash) => Some(
            ActionModel::DeliverPropagated {
                message: in_state(m, MessageState::Sending),
                prop_hash: hash,
            },
        ),
        None => None,
    }
}

/// What is to be done with a queued message; nothing where it stays.  A message that is
/// delivered over a link stays where `keep_direct` says so.
pub open spec fn outcome(
    m: MessageModel,
    now: i64,
    node: Option<[u8; 16]>,
    keep_direct: bool,
) -> Option<ActionModel> {
    if m.delivery_attempts > MAX_DELIVERY_ATTEMPTS {
        Some(ActionModel::Failed(in_state(m, MessageState::Failed)))
    } else if is_expired(m, now) {
        Some(ActionModel::Expired(in_state(m, MessageState::Failed)))
    } else if now < due_at(m) {
        None
    } else {
        match m.method {
            DeliveryMethod::Direct => if keep_direct {
                None
            } else {
                Some(
                    ActionModel::DeliverDirect {
                        message: in_state(m, MessageState::Sending),
                        dest_hash: m.destination_hash,
                    },
                )
            },
            DeliveryMethod::Propagated => propagated_action(m, node),
            DeliveryMethod::Opportunistic => Some(
                ActionModel::DeliverOpportunistic {
                    message: sent_in_packet(m),
                    dest_hash: m.destination_hash,
                },
            ),
            DeliveryMethod::Paper => None,
        }
    }
}

/// Whether a limit is used up.
pub open spec fn is_used_up(n: nat, limit: Option<usize>) -> bool {
    limit matches Some(most) && n >= most
}

/// What a pass over the queue does: the actions, and the messages that stay, both in the
/// order of the queue.  After `limit` actions the rest stays.
pub open spec fn swept(
    pending: Seq<MessageModel>,
    limit: Option<usize>,
    now: i64,
    node: Option<[u8; 16]>,
    keep_direct: bool,
) -> (Seq<ActionModel>, Seq<MessageModel>)
    decreases pending.len(),
{
    if pending.len() == 0 {
        (Seq::empty(), Seq::empty())
    } else {
        let (actions, left) = swept(pending.drop_last(), limit, now, node, keep_direct);
        let m = pending.last();
        if is_used_up(actions.len(), limit) {
            (actions, left.push(m))
        } else {
            match outcome(m, now, node, keep_direct) {
                Some(a) => (actions.push(a), left),
                None => (actions, left.push(m)),
            }
        }
    }
}

/// What is known of a link when a delivery is planned.
pub ghost struct LinkModel {
    pub identity_known: bool,
    pub hops: Option<u8>,
    pub reusable_link: DirectReusableLinkState,
}

impl View for DirectDeliveryPlanInput {
    type V = LinkModel;

    open spec fn view(&self) -> LinkModel {
        LinkModel {
            identity_known: self.identity_known,
            hops: hops_of(self.route),
            reusable_link: self.reusable_link,
        }
    }
}

/// What a pass does with one message.
pub ghost struct StepModel {
    /// What is to be done.
    pub action: Option<ActionModel>,
    /// The message, where it stays.
    pub left: Option<MessageModel>,
    /// Whether the message counts against the limit.
    pub counts: bool,
}

/// A message that stays as it is.
pub open spec fn stays(m: MessageModel) -> StepModel {
    StepModel { action: None, left: Some(m), counts: false }
}

/// A message that is handed on.
pub open spec fn leaves(a: ActionModel) -> StepModel {
    StepModel { action: Some(a), left: None, counts: true }
}

/// Whether it is asked what is known of the link to a message's destination.
pub open spec fn is_asked(m: MessageModel, now: i64) -> bool {
    m.delivery_attempts <= MAX_DELIVERY_ATTEMPTS && !is_expired(m, now) && m.method
        == DeliveryMethod::Direct
}

/// What is done with a message that is delivered over a link.
pub open spec fn direct_step(m: MessageModel, link: LinkModel, now: i64) -> StepModel {
    if link.reusable_link == DirectReusableLinkState::Absent && now < due_at(m) {
        stays(m)
    } else {
        let (next, plan) = planned_delivery(
            in_state(m, MessageState::Sending),
            link.identity_known,
            link.hops,
            link.reusable_link,
            now,
        );
        if plan == DirectDeliveryPlan::DeferTerminalFailure {
            StepModel { action: None, left: Some(next), counts: true }
        } else {
            StepModel {
                action: Some(
                    ActionModel::PlanDirect { message: next, dest_hash: m.destination_hash, plan },
                ),
                left: Some(next),
                counts: true,
            }
        }
    }
}

/// What is done with a message where `link` is what is known of the link to its
/// destination.
pub open spec fn step(
    m: MessageModel,
    link: LinkModel,
    now: i64,
    node: Option<[u8; 16]>,
) -> StepModel {
    if m.delivery_attempts > MAX_DELIVERY_ATTEMPTS {
        leaves(ActionModel::Failed(in_state(m, MessageState::Failed)))
    } else if is_expired(m, now) {
        leaves(ActionModel::Expired(in_state(m, MessageState::Failed)))
    } else {
        match m.method {
            DeliveryMethod::Direct => direct_step(m, link, now),
            DeliveryMethod::Propagated => if now < due_at(m) {
                stays(m)
            } else {
                match propagated_action(m, node) {
                    Some(a) => leaves(a),
                    None => stays(m),
                }
            },
            DeliveryMethod::Opportunistic => if now < due_at(m) {
                stays(m)
            } else {
                leaves(
                    ActionModel::DeliverOpportunistic {
                        message: sent_in_packet(m),
                        dest_hash: m.destination_hash,
                    },
                )
            },
            DeliveryMethod::Paper => stays(m),
        }
    }
}

/// What a pass that plans deliveries over links does.
#[verifier::ext_equal]
pub ghost struct PassModel {
    pub actions: Seq<ActionModel>,
    pub left: Seq<MessageModel>,
    /// How many messages counted against the limit.
    pub processed: nat,
}

/// A pass over the queue, where `links` is what is known of the link to the destination of
/// each message.
pub open spec fn passed(
    pending: Seq<MessageModel>,
    links: Seq<LinkModel>,
    limit: Option<usize>,
    now: i64,
    node: Option<[u8; 16]>,
) -> PassModel
    decreases pending.len(),
{
    if pending.len() == 0 {
        PassModel { actions: Seq::empty(), left: Seq::empty(), processed: 0 }
    } else {
        let before = passed(pending.drop_last(), links, limit, now, node);
        let m = pending.last();
        if is_used_up(before.processed, limit) {
            PassModel { left: before.left.push(m), ..before }
        } else {
            let s = step(m, links[pending.len() - 1], now, node);
            PassModel {
                actions: match s.action {
                    Some(a) => before.actions.push(a),
                    None => before.actions,
                },
                left: match s.left {
                    Some(x) => before.left.push(x),
                    None => before.left,
                },
                processed: if s.counts {
                    before.processed + 1
                } else {
                    before.processed
                },
            }
        }
    }
}

/// Whether `inputs` are what `direct_input` says of the messages of a queue that it is
/// asked of.
pub open spec fn informs<F: Fn(&LxMessage, i64) -> DirectDeliveryPlanInput>(
    direct_input: F,
    pending: Seq<LxMessage>,
    inputs: Seq<DirectDeliveryPlanInput>,
    limit: Option<usize>,
    now: i64,
    node: Option<[u8; 16]>,
) -> bool {
    &&& inputs.len() == pending.len()
    &&& forall|i: int|
        0 <= i < pending.len() && is_asked((#[trigger] pending[i])@, now) && !is_used_up(
            passed(message_models(pending).take(i), link_models(inputs), limit, now, node).processed,
            limit,
        ) ==> call_ensures(direct_input, (&pending[i], now), inputs[i])
}

/// What is known of some links.
pub open spec fn link_models(s: Seq<DirectDeliveryPlanInput>) -> Seq<LinkModel> {
    Seq::new(s.len(), |i: int| s[i]@)
}

/// What a pass does depends only on what is known of the links of the messages in it.
proof fn lemma_passed_links(
    pending: Seq<MessageModel>,
    a: Seq<LinkModel>,
    b: Seq<LinkModel>,
    limit: Option<usize>,
    now: i64,
    node: Option<[u8; 16]>,
)
    requires
        forall|i: int| 0 <= i < pending.len() ==> a[i] == #[trigger] b[i],
    ensures
        passed(pending, a, limit, now, node) == passed(pending, b, limit, now, node),
    decreases pending.len(),
{
    if pending.len() > 0 {
        assert(a[pending.len() - 1] == b[pending.len() - 1]);
        lemma_passed_links(pending.drop_last(), a, b, limit, now, node);
    }
}

/// When a message is due.
fn message_due_at(m: &LxMessage) -> (at: i64)
    ensures
        at == due_at(m@),
{
    if m.next_delivery_attempt > 0 {
        m.next_delivery_attempt
    } else if m.last_delivery_attempt > 0 {
        seconds_after(m.last_delivery_attempt, DELIVERY_RETRY_WAIT)
    } else {
        0
    }
}

/// Whether a message is too old to be delivered.
fn message_is_expired(m: &LxMessage, now: i64) -> (b: bool)
    ensures
        b == is_expired(m@, now),
{
    let no_number = m.timestamp / 0x10_0000_0000_0000 % 2048 == 2047 && m.timestamp
        % 0x10_0000_0000_0000 != 0;
    !no_number && has_passed(micros_of(m.timestamp), now, MESSAGE_EXPIRY)
}

/// Whether a limit is used up.
fn limit_reached(n: usize, limit: Option<usize>) -> (b: bool)
    ensures
        b == is_used_up(n as nat, limit),
{
    match limit {
        Some(most) => n >= most,
        None => false,
    }
}

/// What is to be done with a message, or the message where it stays.
fn hand_on(message: LxMessage, now: i64, node: Option<[u8; 16]>, keep_direct: bool) -> (r: Result<
    OutboundAction,
    LxMessage,
>)
    ensures
        r matches Ok(a) ==> outcome(message@, now, node, keep_direct) == Some(a@),
        r matches Err(m) ==> outcome(message@, now, node, keep_direct) is None && m@ == message@,
{
    let mut m = message;
    if m.delivery_attempts > MAX_DELIVERY_ATTEMPTS {
        m.mark_failed();
        return Ok(OutboundAction::Failed(m));
    }
    if message_is_expired(&m, now) {
        m.mark_failed();
        return Ok(OutboundAction::Expired(m));
    }
    if now < message_due_at(&m) {
        return Err(m);
    }
    match m.method {
        DeliveryMethod::Direct => if keep_direct {
            Err(m)
        } else {
            m.mark_sending();
            let dest_hash = m.destination_hash;
            Ok(OutboundAction::DeliverDirect { message: m, dest_hash })
        },
        DeliveryMethod::Propagated => match node {
            Some(prop_hash) => {
                m.mark_sending();
                Ok(OutboundAction::DeliverPropagated { message: m, prop_hash })
            },
            None => Err(m),
        },
        DeliveryMethod::Opportunistic => {
            m.mark_sent();
            m.progress = PROGRESS_PACKET_SENT;
            let dest_hash = m.destination_hash;
            Ok(OutboundAction::DeliverOpportunistic { message: m, dest_hash })
        },
        DeliveryMethod::Paper => Err(m),
    }
}

/// Takes the messages that are handed on out of a queue.
pub fn sweep(
    pending: Vec<LxMessage>,
    limit: Option<usize>,
    now: i64,
    node: Option<[u8; 16]>,
    keep_direct: bool,
) -> (r: (Vec<OutboundAction>, Vec<LxMessage>))
    ensures
        (action_models(r.0@), message_models(r.1@)) == swept(
            message_models(pending@),
            limit,
            now,
            node,
            keep_direct,
        ),
{
    let ghost all = message_models(pending@);
    let mut rest = pending;
    let mut actions: Vec<OutboundAction> = Vec::new();
    let mut left: Vec<LxMessage> = Vec::new();
    let ghost mut n: int = 0;
    proof {
        assert(action_models(actions@) =~= swept(all.take(0), limit, now, node, keep_direct).0);
        assert(message_models(left@) =~= swept(all.take(0), limit, now, node, keep_direct).1);
    }
    while rest.len() > 0
        invariant
            0 <= n <= all.len(),
            message_models(rest@) == all.skip(n),
            (action_models(actions@), message_models(left@)) == swept(
                all.take(n),
                limit,
                now,
                node,
                keep_direct,
            ),
        decreases rest@.len(),
    {
        let ghost before = rest@;
        let ghost taken = actions@;
        let ghost kept = left@;
        proof {
            assert(message_models(before).len() == before.len());
            assert(all.take(n + 1).drop_last() =~= all.take(n));
            assert(all.skip(n)[0] == all[n]);
            assert(message_models(before)[0] == before[0]@);
            assert(action_models(taken).len() == taken.len());
        }
        let m = rest.remove(0);
        proof {
            assert(message_models(rest@) =~= all.skip(n + 1)) by {
                assert forall|j: int| 0 <= j < rest@.len() implies message_models(rest@)[j]
                    == all.skip(n + 1)[j] by {
                    assert(rest@[j] == before[j + 1]);
                    assert(message_models(before)[j + 1] == all.skip(n)[j + 1]);
                }
            }
        }
        let ghost model = m@;
        if limit_reached(actions.len(), limit) {
            left.push(m);
            assert(message_models(left@) =~= message_models(kept).push(model));
        } else {
            match hand_on(m, now, node, keep_direct) {
                Ok(a) => {
                    let ghost am = a@;
                    actions.push(a);
                    assert(action_models(actions@) =~= action_models(taken).push(am));
                },
                Err(stays) => {
                    left.push(stays);
                    assert(message_models(left@) =~= message_models(kept).push(model));
                },
            }
        }
        proof {
            n = n + 1;
        }
    }
    proof {
        assert(message_models(rest@).len() == 0);
        assert(all.take(n) =~= all);
    }
    (actions, left)
}

/// Whether an action, a message that stays and a count are what a pass does with a message.
spec fn is_step(s: StepModel, action: Option<OutboundAction>, left: Option<LxMessage>, counts: bool) -> bool {
    &&& s.action == (match action {
        Some(a) => Some(a@),
        None => None,
    })
    &&& s.left == (match left {
        Some(m) => Some(m@),
        None => None,
    })
    &&& s.counts == counts
}

/// Plans the delivery of one message over a link.
fn plan_step(message: LxMessage, input: DirectDeliveryPlanInput, now: i64) -> (r: (
    Option<OutboundAction>,
    Option<LxMessage>,
    bool,
))
    requires
        message@.delivery_attempts <= MAX_DELIVERY_ATTEMPTS,
    ensures
        is_step(direct_step(message@, input@, now), r.0, r.1, r.2),
{
    let mut m = message;
    if input.reusable_link == DirectReusableLinkState::Absent && now < message_due_at(&m) {
        return (None, Some(m), false);
    }
    if m.state != MessageState::Sending {
        m.mark_sending();
    }
    assert(m@ == in_state(message@, MessageState::Sending));
    let plan = plan_direct_delivery(&mut m, &input, now);
    if plan == DirectDeliveryPlan::DeferTerminalFailure {
        (None, Some(m), true)
    } else {
        let message = m.copy();
        let dest_hash = m.destination_hash;
        (Some(OutboundAction::PlanDirect { message, dest_hash, plan }), Some(m), true)
    }
}

/// Does with one message what a pass does with it.  What is known of the link to its
/// destination is in `input`, where it was asked.
fn take_step(
    message: LxMessage,
    input: Option<DirectDeliveryPlanInput>,
    Ghost(link): Ghost<LinkModel>,
    now: i64,
    node: Option<[u8; 16]>,
) -> (r: (Option<OutboundAction>, Option<LxMessage>, bool))
    requires
        is_asked(message@, now) ==> input is Some && input->0@ == link,
    ensures
        is_step(step(message@, link, now, node), r.0, r.1, r.2),
{
    let mut m = message;
    if m.delivery_attempts > MAX_DELIVERY_ATTEMPTS {
        m.mark_failed();
        return (Some(OutboundAction::Failed(m)), None, true);
    }
    if message_is_expired(&m, now) {
        m.mark_failed();
        return (Some(OutboundAction::Expired(m)), None, true);
    }
    match m.method {
        DeliveryMethod::Direct => match input {
            Some(known) => plan_step(m, known, now),
            None => (None, None, false),
        },
        DeliveryMethod::Propagated => {
            if now < message_due_at(&m) {
                return (None, Some(m), false);
            }
            match node {
                Some(prop_hash) => {
                    m.mark_sending();
                    (
                        Some(OutboundAction::DeliverPropagated { message: m, prop_hash }),
                        None,
                        true,
                    )
                },
                None => (None, Some(m), false),
            }
        },
        DeliveryMethod::Opportunistic => {
            if now < message_due_at(&m) {
                return (None, Some(m), false);
            }
            m.mark_sent();
            m.progress = PROGRESS_PACKET_SENT;
            let dest_hash = m.destination_hash;
            (Some(OutboundAction::DeliverOpportunistic { message: m, dest_hash }), None, true)
        },
        DeliveryMethod::Paper => (None, Some(m), false),
    }
}

/// Takes the messages that are handed on out of a queue and plans the deliveries over
/// links.  What is known of a link, `direct_input` says.
pub fn sweep_with_direct<F>(
    pending: Vec<LxMessage>,
    limit: Option<usize>,
    now: i64,
    node: Option<[u8; 16]>,
    direct_input: &F,
) -> (r: (Vec<OutboundAction>, Vec<LxMessage>)) where
    F: Fn(&LxMessage, i64) -> DirectDeliveryPlanInput,

    requires
        forall|m: &LxMessage, at: i64| call_requires(*direct_input, (m, at)),
    ensures
        exists|inputs: Seq<DirectDeliveryPlanInput>| #[trigger]
            informs(*direct_input, pending@, inputs, limit, now, node) && action_models(r.0@)
                == passed(
                message_models(pending@),
                link_models(inputs),
                limit,
                now,
                node,
            ).actions && message_models(r.1@) == passed(
                message_models(pending@),
                link_models(inputs),
                limit,
                now,
                node,
            ).left,
{
    let ghost queue = pending@;
    let ghost all = message_models(queue);
    let ghost f = *direct_input;
    let total: usize = pending.len();
    let mut rest = pending;
    let mut actions: Vec<OutboundAction> = Vec::new();
    let mut left: Vec<LxMessage> = Vec::new();
    let mut processed: usize = 0;
    let ghost mut n: int = 0;
    let ghost mut inputs: Seq<DirectDeliveryPlanInput> = Seq::empty();
    proof {
        let p = passed(all.take(0), link_models(inputs), limit, now, node);
        assert(action_models(actions@) =~= p.actions);
        assert(message_models(left@) =~= p.left);
        assert(rest@ =~= queue.skip(0));
    }
    while rest.len() > 0
        invariant
            0 <= n <= queue.len(),
            processed <= n,
            queue.len() == total,
            all == message_models(queue),
            f == *direct_input,
            rest@ == queue.skip(n),
            inputs.len() == n,
            forall|m: &LxMessage, at: i64| call_requires(*direct_input, (m, at)),
            ({
                let p = passed(all.take(n), link_models(inputs), limit, now, node);
                &&& action_models(actions@) == p.actions
                &&& message_models(left@) == p.left
                &&& processed == p.processed
            }),
            forall|i: int|
                0 <= i < n && is_asked((#[trigger] queue[i])@, now) && !is_used_up(
                    passed(all.take(i), link_models(inputs), limit, now, node).processed,
                    limit,
                ) ==> call_ensures(f, (&queue[i], now), inputs[i]),
        decreases rest@.len(),
    {
        let ghost taken = actions@;
        let ghost kept = left@;
        let ghost earlier = inputs;
        let m = rest.remove(0);
        let ghost model = m@;
        proof {
            assert(m == queue[n]);
            assert(rest@ =~= queue.skip(n + 1));
            assert(all.take(n + 1).drop_last() =~= all.take(n));
            assert(all.take(n + 1).last() == model);
        }
        if limit_reached(processed, limit) {
            let ghost any: DirectDeliveryPlanInput = vstd::pervasive::arbitrary();
            left.push(m);
            proof {
                inputs = inputs.push(any);
                assert(message_models(left@) =~= message_models(kept).push(model));
            }
        } else {
            let asked = m.delivery_attempts <= MAX_DELIVERY_ATTEMPTS && m.method
                == DeliveryMethod::Direct && !message_is_expired(&m, now);
            let input: Option<DirectDeliveryPlanInput> = if asked {
                Some(direct_input(&m, now))
            } else {
                None
            };
            let ghost next: DirectDeliveryPlanInput = if input is Some {
                input->0
            } else {
                vstd::pervasive::arbitrary()
            };
            let (action, stays, counts) = take_step(m, input, Ghost(next@), now, node);
            proof {
                inputs = inputs.push(next);
                assert(link_models(inputs)[n] == next@);
            }
            match action {
                Some(a) => {
                    let ghost am = a@;
                    actions.push(a);
                    assert(action_models(actions@) =~= action_models(taken).push(am));
                },
                None => {},
            }
            match stays {
                Some(x) => {
                    let ghost xm = x@;
                    left.push(x);
                    assert(message_models(left@) =~= message_models(kept).push(xm));
                },
                None => {},
            }
            if counts {
                processed = processed + 1;
            }
        }
        proof {
            lemma_passed_links(
                all.take(n),
                link_models(earlier),
                link_models(inputs),
                limit,
                now,
                node,
            );
            assert forall|i: int|
                0 <= i < n + 1 && is_asked((#[trigger] queue[i])@, now) && !is_used_up(
                    passed(all.take(i), link_models(inputs), limit, now, node).processed,
                    limit,
                ) implies call_ensures(f, (&queue[i], now), inputs[i]) by {
                lemma_passed_links(
                    all.take(i),
                    link_models(earlier),
                    link_models(inputs),
                    limit,
                    now,
                    node,
                );
            }
            n = n + 1;
        }
    }
    proof {
        assert(all.take(n) =~= all);
        assert(informs(f, queue, inputs, limit, now, node));
    }
    (actions, left)
}

// ---------------------------------------------------------------------------
// What a pass leaves.
// ---------------------------------------------------------------------------

/// A pass loses no message: each is handed on once or stays, and no more than the limit
/// are handed on.
pub proof fn sweeping_loses_no_message(
    pending: Seq<MessageModel>,
    limit: Option<usize>,
    now: i64,
    node: Option<[u8; 16]>,
    keep_direct: bool,
)
    ensures
        ({
            let (actions, left) = swept(pending, limit, now, node, keep_direct);
            &&& actions.len() + left.len() == pending.len()
            &&& limit matches Some(most) ==> actions.len() <= most
        }),
    decreases pending.len(),
{
    if pending.len() > 0 {
        sweeping_loses_no_message(pending.drop_last(), limit, now, node, keep_direct);
    }
}

/// A message that stays is left as it was, and the order of the queue is kept.
pub proof fn sweeping_keeps_the_order(
    pending: Seq<MessageModel>,
    now: i64,
    node: Option<[u8; 16]>,
    keep_direct: bool,
)
    ensures
        swept(pending, None, now, node, keep_direct).1 == pending.filter(
            |m: MessageModel| outcome(m, now, node, keep_direct) is None,
        ),
    decreases pending.len(),
{
    reveal(Seq::filter);
    if pending.len() > 0 {
        sweeping_keeps_the_order(pending.drop_last(), now, node, keep_direct);
    }
}

/// A message that is not due stays, unless it was attempted too often or is too old.
pub proof fn messages_wait_until_they_are_due(
    m: MessageModel,
    now: i64,
    node: Option<[u8; 16]>,
    keep_direct: bool,
)
    requires
        now < due_at(m),
        m.delivery_attempts <= MAX_DELIVERY_ATTEMPTS,
        !is_expired(m, now),
    ensures
        outcome(m, now, node, keep_direct) is None,
{
}

/// A message that is too old is given up on the next pass, whenever it would be due and
/// whatever is known of the link to its destination.
pub proof fn old_messages_are_given_up(
    m: MessageModel,
    link: LinkModel,
    now: i64,
    node: Option<[u8; 16]>,
    keep_direct: bool,
)
    requires
        m.delivery_attempts <= MAX_DELIVERY_ATTEMPTS,
        is_expired(m, now),
    ensures
        outcome(m, now, node, keep_direct) == Some(
            ActionModel::Expired(in_state(m, MessageState::Failed)),
        ),
        step(m, link, now, node) == leaves(ActionModel::Expired(in_state(m, MessageState::Failed))),
{
}

/// A pass that plans deliveries keeps every message that is delivered over a link, and
/// counts no more than the limit.
pub proof fn planning_keeps_direct_messages(
    m: MessageModel,
    link: LinkModel,
    now: i64,
    node: Option<[u8; 16]>,
)
    requires
        is_asked(m, now),
    ensures
        step(m, link, now, node).left is Some,
{
}

/// No more messages than the limit count against it.
pub proof fn passing_respects_the_limit(
    pending: Seq<MessageModel>,
    links: Seq<LinkModel>,
    limit: Option<usize>,
    now: i64,
    node: Option<[u8; 16]>,
)
    ensures
        limit matches Some(most) ==> passed(pending, links, limit, now, node).processed <= most,
        passed(pending, links, limit, now, node).actions.len() <= passed(
            pending,
            links,
            limit,
            now,
            node,
        ).processed,
        passed(pending, links, limit, now, node).left.len() <= pending.len(),
    decreases pending.len(),
{
    if pending.len() > 0 {
        passing_respects_the_limit(pending.drop_last(), links, limit, now, node);
    }
}

// ---------------------------------------------------------------------------
// What a pass is for.
// ---------------------------------------------------------------------------

/// What a sender wrote: a message without its state, its progress and its schedule, which
/// delivery changes.
pub open spec fn letter(m: MessageModel) -> MessageModel {
    MessageModel {
        state: MessageState::Generating,
        progress: 0,
        delivery_attempts: 0,
        last_delivery_attempt: 0,
        next_delivery_attempt: 0,
        ..m
    }
}

/// How often a letter is in a queue.
pub open spec fn copies(queue: Seq<MessageModel>, l: MessageModel) -> nat
    decreases queue.len(),
{
    if queue.len() == 0 {
        0
    } else {
        copies(queue.drop_last(), l) + if letter(queue.last()) == l {
            1nat
        } else {
            0
        }
    }
}

/// The message of an action.
pub open spec fn message_of(a: ActionModel) -> MessageModel {
    match a {
        ActionModel::Failed(message) => message,
        ActionModel::Expired(message) => message,
        ActionModel::DeliverDirect { message, dest_hash } => message,
        ActionModel::PlanDirect { message, dest_hash, plan } => message,
        ActionModel::DeliverPropagated { message, prop_hash } => message,
        ActionModel::DeliverOpportunistic { message, dest_hash } => message,
    }
}

/// How often a letter leaves the queue: a planned delivery leaves it there.
pub open spec fn departures(actions: Seq<ActionModel>, l: MessageModel) -> nat
    decreases actions.len(),
{
    if actions.len() == 0 {
        0
    } else {
        departures(actions.drop_last(), l) + if !(actions.last() is PlanDirect) && letter(
            message_of(actions.last()),
        ) == l {
            1nat
        } else {
            0
        }
    }
}

/// A pass loses no letter and doubles none: each is handed on or stays as often as it was in
/// the queue.
pub proof fn letters_are_handed_on_or_stay(
    pending: Seq<MessageModel>,
    limit: Option<usize>,
    now: i64,
    node: Option<[u8; 16]>,
    keep_direct: bool,
    l: MessageModel,
)
    ensures
        ({
            let (actions, left) = swept(pending, limit, now, node, keep_direct);
            copies(left, l) + departures(actions, l) == copies(pending, l)
        }),
    decreases pending.len(),
{
    if pending.len() > 0 {
        let rest = pending.drop_last();
        letters_are_handed_on_or_stay(rest, limit, now, node, keep_direct, l);
        let (actions, left) = swept(rest, limit, now, node, keep_direct);
        let m = pending.last();
        assert(left.push(m).drop_last() =~= left);
        match outcome(m, now, node, keep_direct) {
            Some(a) => {
                assert(actions.push(a).drop_last() =~= actions);
            },
            None => {},
        }
    }
}

/// What is done with one message keeps its letter, in the queue or in the action that takes it
/// out.
proof fn lemma_step_keeps_the_letter(
    m: MessageModel,
    link: LinkModel,
    now: i64,
    node: Option<[u8; 16]>,
)
    ensures
        is_accounted_for(step(m, link, now, node), m),
{
}

/// Whether a letter is either left or taken out by the action.
spec fn is_accounted_for(s: StepModel, m: MessageModel) -> bool {
    &&& s.left matches Some(x) ==> letter(x) == letter(m) && (s.action matches Some(a)
        ==> a is PlanDirect)
    &&& s.left is None ==> s.action is Some && !(s.action->0 is PlanDirect) && letter(
        message_of(s.action->0),
    ) == letter(m)
}

proof fn lemma_copies_step(
    actions: Seq<ActionModel>,
    left: Seq<MessageModel>,
    s: StepModel,
    m: MessageModel,
    l: MessageModel,
)
    requires
        is_accounted_for(s, m),
    ensures
        ({
            let more = match s.action {
                Some(a) => actions.push(a),
                None => actions,
            };
            let stay = match s.left {
                Some(x) => left.push(x),
                None => left,
            };
            copies(stay, l) + departures(more, l) == copies(left, l) + departures(actions, l) + if letter(
                m,
            ) == l {
                1nat
            } else {
                0
            }
        }),
{
    match s.action {
        Some(a) => {
            assert(actions.push(a).drop_last() =~= actions);
        },
        None => {},
    }
    match s.left {
        Some(x) => {
            assert(left.push(x).drop_last() =~= left);
        },
        None => {},
    }
}

/// A pass that plans deliveries loses no letter and doubles none either: each is handed on or
/// stays as often as it was in the queue, and what is planned stays.
pub proof fn planned_letters_are_handed_on_or_stay(
    pending: Seq<MessageModel>,
    links: Seq<LinkModel>,
    limit: Option<usize>,
    now: i64,
    node: Option<[u8; 16]>,
    l: MessageModel,
)
    ensures
        ({
            let p = passed(pending, links, limit, now, node);
            copies(p.left, l) + departures(p.actions, l) == copies(pending, l)
        }),
    decreases pending.len(),
{
    if pending.len() > 0 {
        let rest = pending.drop_last();
        planned_letters_are_handed_on_or_stay(rest, links, limit, now, node, l);
        let before = passed(rest, links, limit, now, node);
        let m = pending.last();
        let s = step(m, links[pending.len() - 1], now, node);
        assert(before.left.push(m).drop_last() =~= before.left);
        lemma_step_keeps_the_letter(m, links[pending.len() - 1], now, node);
        lemma_copies_step(before.actions, before.left, s, m, l);
    }
}

/// A message is too old where more than thirty days lie between its time and now; a message
/// whose time is no number never is.
pub proof fn messages_grow_too_old(m: MessageModel, now: i64)
    ensures
        is_expired(m, now) <==> !is_nan(m.timestamp) && now - micros(m.timestamp) > 30 * 24 * 3600
            * 1_000_000,
{
}

/// A message is due at the time set for it, else some time after its last attempt, else at
/// once.
pub proof fn messages_are_due_as_scheduled(m: MessageModel)
    ensures
        m.next_delivery_attempt > 0 ==> due_at(m) == m.next_delivery_attempt,
        m.next_delivery_attempt <= 0 && m.last_delivery_attempt > 0 && m.last_delivery_attempt
            + DELIVERY_RETRY_WAIT * 1_000_000 <= i64::MAX ==> due_at(m) == m.last_delivery_attempt
            + DELIVERY_RETRY_WAIT * 1_000_000,
        m.next_delivery_attempt <= 0 && m.last_delivery_attempt <= 0 ==> due_at(m) == 0,
{
}

/// Whether a message may still be delivered.
pub open spec fn is_alive(m: MessageModel, now: i64) -> bool {
    m.delivery_attempts <= MAX_DELIVERY_ATTEMPTS && !is_expired(m, now)
}

/// Whether the state of a message, the time and the propagation node call for an action.
pub open spec fn is_called_for(
    a: ActionModel,
    m: MessageModel,
    now: i64,
    node: Option<[u8; 16]>,
) -> bool {
    let due = is_alive(m, now) && due_at(m) <= now;
    match a {
        ActionModel::Failed(message) => m.delivery_attempts > MAX_DELIVERY_ATTEMPTS && message == (
        MessageModel { state: MessageState::Failed, ..m }),
        ActionModel::Expired(message) => m.delivery_attempts <= MAX_DELIVERY_ATTEMPTS && is_expired(
            m,
            now,
        ) && message == (MessageModel { state: MessageState::Failed, ..m }),
        ActionModel::DeliverDirect { message, dest_hash } => due && m.method
            == DeliveryMethod::Direct && dest_hash == m.destination_hash && message == (
        MessageModel { state: MessageState::Sending, ..m }),
        ActionModel::DeliverPropagated { message, prop_hash } => due && m.method
            == DeliveryMethod::Propagated && node == Some(prop_hash) && message == (MessageModel {
            state: MessageState::Sending,
            ..m
        }),
        ActionModel::DeliverOpportunistic { message, dest_hash } => due && m.method
            == DeliveryMethod::Opportunistic && dest_hash == m.destination_hash && message == (
        MessageModel { state: MessageState::Sent, progress: 500_000, ..m }),
        ActionModel::PlanDirect { message, dest_hash, plan } => is_alive(m, now) && m.method
            == DeliveryMethod::Direct && dest_hash == m.destination_hash && letter(message)
            == letter(m),
    }
}

/// Whether a message is one that no pass hands on now, whatever is known of links.
pub open spec fn must_wait(m: MessageModel, now: i64, node: Option<[u8; 16]>) -> bool {
    is_alive(m, now) && (m.method == DeliveryMethod::Paper || (m.method
        == DeliveryMethod::Propagated && node is None) || (m.method != DeliveryMethod::Direct && now
        < due_at(m)))
}

/// The actions and the messages that stay of a shorter queue come first.
proof fn lemma_swept_prefix(
    pending: Seq<MessageModel>,
    limit: Option<usize>,
    now: i64,
    node: Option<[u8; 16]>,
    keep_direct: bool,
    n: int,
)
    requires
        0 <= n <= pending.len(),
    ensures
        ({
            let (a, l) = swept(pending.take(n), limit, now, node, keep_direct);
            let (actions, left) = swept(pending, limit, now, node, keep_direct);
            &&& a.len() <= actions.len() && l.len() <= left.len() && a.len() + l.len() == n
            &&& a == actions.take(a.len() as int)
            &&& l == left.take(l.len() as int)
        }),
    decreases pending.len() - n,
{
    sweeping_loses_no_message(pending.take(n), limit, now, node, keep_direct);
    if n < pending.len() {
        lemma_swept_prefix(pending, limit, now, node, keep_direct, n + 1);
        assert(pending.take(n + 1).drop_last() =~= pending.take(n));
        let (a, l) = swept(pending.take(n), limit, now, node, keep_direct);
        let (b, k) = swept(pending.take(n + 1), limit, now, node, keep_direct);
        let (actions, left) = swept(pending, limit, now, node, keep_direct);
        assert(a =~= b.take(a.len() as int));
        assert(l =~= k.take(l.len() as int));
        assert(a =~= actions.take(a.len() as int));
        assert(l =~= left.take(l.len() as int));
    } else {
        assert(pending.take(n) =~= pending);
        let (actions, left) = swept(pending, limit, now, node, keep_direct);
        assert(actions.take(actions.len() as int) =~= actions);
        assert(left.take(left.len() as int) =~= left);
    }
}

/// What a message calls for is done with it, unless the limit is used up: a due message goes
/// out by its method, to its own destination or to the node, one that was tried too often or
/// is too old is given up, and any other stays as it is.
pub proof fn passes_do_what_is_called_for(
    pending: Seq<MessageModel>,
    limit: Option<usize>,
    now: i64,
    node: Option<[u8; 16]>,
    keep_direct: bool,
    i: int,
    a: ActionModel,
)
    requires
        0 <= i < pending.len(),
        limit matches Some(most) ==> i < most || swept(
            pending,
            limit,
            now,
            node,
            keep_direct,
        ).0.len() < most,
    ensures
        ({
            let (actions, left) = swept(pending, limit, now, node, keep_direct);
            let m = pending[i];
            &&& is_called_for(a, m, now, node) && !(a is PlanDirect) && !(keep_direct
                && a is DeliverDirect) ==> actions.contains(a)
            &&& must_wait(m, now, node) ==> left.contains(m)
            &&& is_alive(m, now) && (keep_direct || now < due_at(m)) && m.method
                == DeliveryMethod::Direct ==> left.contains(m)
        }),
{
    lemma_swept_prefix(pending, limit, now, node, keep_direct, i);
    lemma_swept_prefix(pending, limit, now, node, keep_direct, i + 1);
    assert(pending.take(i + 1).drop_last() =~= pending.take(i));
    assert(pending.take(i + 1).last() == pending[i]);
    let (b, k) = swept(pending.take(i), limit, now, node, keep_direct);
    let (c, l) = swept(pending.take(i + 1), limit, now, node, keep_direct);
    let (actions, left) = swept(pending, limit, now, node, keep_direct);
    assert(!is_used_up(b.len(), limit));
    match outcome(pending[i], now, node, keep_direct) {
        Some(x) => {
            assert(c[b.len() as int] == x);
            assert(actions[b.len() as int] == x);
        },
        None => {
            assert(l[k.len() as int] == pending[i]);
            assert(left[k.len() as int] == pending[i]);
        },
    }
}

/// Nothing is done that no message calls for: before it is due, to another destination, or by
/// another method.
pub proof fn passes_do_nothing_uncalled_for(
    pending: Seq<MessageModel>,
    limit: Option<usize>,
    now: i64,
    node: Option<[u8; 16]>,
    keep_direct: bool,
    k: int,
)
    requires
        0 <= k < swept(pending, limit, now, node, keep_direct).0.len(),
    ensures
        ({
            let a = swept(pending, limit, now, node, keep_direct).0[k];
            &&& exists|i: int|
                0 <= i < pending.len() && is_called_for(a, #[trigger] pending[i], now, node)
            &&& !(a is PlanDirect)
            &&& keep_direct ==> !(a is DeliverDirect)
        }),
    decreases pending.len(),
{
    if pending.len() > 0 {
        let rest = pending.drop_last();
        let (b, l) = swept(rest, limit, now, node, keep_direct);
        let a = swept(pending, limit, now, node, keep_direct).0[k];
        if k < b.len() {
            passes_do_nothing_uncalled_for(rest, limit, now, node, keep_direct, k);
            let i = choose|i: int|
                0 <= i < rest.len() && is_called_for(b[k], #[trigger] rest[i], now, node);
            assert(pending[i] == rest[i]);
            assert(a == b[k]);
        } else {
            assert(is_called_for(a, pending[pending.len() - 1], now, node));
        }
    }
}

/// A pass without a limit deals with each message by itself, in the order of the queue: what
/// it does with two queues in a row is what it does with each.
pub proof fn passes_go_message_by_message(
    first: Seq<MessageModel>,
    second: Seq<MessageModel>,
    now: i64,
    node: Option<[u8; 16]>,
    keep_direct: bool,
)
    ensures
        ({
            let (a, l) = swept(first, None, now, node, keep_direct);
            let (b, k) = swept(second, None, now, node, keep_direct);
            swept(first + second, None, now, node, keep_direct) == (a + b, l + k)
        }),
    decreases second.len(),
{
    let all = first + second;
    let (a, l) = swept(first, None, now, node, keep_direct);
    let (b, k) = swept(second, None, now, node, keep_direct);
    if second.len() > 0 {
        let rest = second.drop_last();
        passes_go_message_by_message(first, rest, now, node, keep_direct);
        assert(all.drop_last() =~= first + rest);
        assert(all.last() == second.last());
        let (c, n) = swept(rest, None, now, node, keep_direct);
        let m = second.last();
        match outcome(m, now, node, keep_direct) {
            Some(x) => {
                assert((a + c).push(x) =~= a + c.push(x));
            },
            None => {
                assert((l + n).push(m) =~= l + n.push(m));
            },
        }
    } else {
        assert(all =~= first);
        assert(a + b =~= a);
        assert(l + k =~= l);
    }
}

/// A limit cuts a pass off: up to some place it goes as it would without a limit, and from
/// there on everything stays.  It stops only once the limit is used up.
pub proof fn limits_cut_passes_off(
    pending: Seq<MessageModel>,
    most: usize,
    now: i64,
    node: Option<[u8; 16]>,
    keep_direct: bool,
) -> (n: int)
    ensures
        0 <= n <= pending.len(),
        ({
            let (actions, left) = swept(pending, Some(most), now, node, keep_direct);
            let (a, l) = swept(pending.take(n), None, now, node, keep_direct);
            &&& actions == a
            &&& left == l + pending.skip(n)
            &&& n < pending.len() ==> actions.len() == most
        }),
    decreases pending.len(),
{
    sweeping_loses_no_message(pending, Some(most), now, node, keep_direct);
    if pending.len() == 0 {
        assert(pending.take(0) =~= pending);
        assert(Seq::<MessageModel>::empty() + pending.skip(0) =~= Seq::<MessageModel>::empty());
        0
    } else {
        let rest = pending.drop_last();
        let m = pending.last();
        sweeping_loses_no_message(rest, Some(most), now, node, keep_direct);
        let (b, k) = swept(rest, Some(most), now, node, keep_direct);
        let n = limits_cut_passes_off(rest, most, now, node, keep_direct);
        let (a, l) = swept(rest.take(n), None, now, node, keep_direct);
        assert(pending.take(n) =~= rest.take(n));
        if b.len() >= most {
            assert((l + rest.skip(n)).push(m) =~= l + pending.skip(n));
            n
        } else {
            assert(n == rest.len());
            assert(rest.take(n) =~= rest);
            assert(l + rest.skip(n) =~= l);
            assert(pending.take(pending.len() as int) =~= pending);
            let (c, d) = swept(pending, None, now, node, keep_direct);
            assert(d + pending.skip(pending.len() as int) =~= d);
            pending.len() as int
        }
    }
}

/// The actions and the messages that stay of a shorter queue come first.
proof fn lemma_passed_prefix(
    pending: Seq<MessageModel>,
    links: Seq<LinkModel>,
    limit: Option<usize>,
    now: i64,
    node: Option<[u8; 16]>,
    n: int,
)
    requires
        0 <= n <= pending.len(),
    ensures
        ({
            let b = passed(pending.take(n), links, limit, now, node);
            let p = passed(pending, links, limit, now, node);
            &&& b.actions.len() <= p.actions.len() && b.left.len() <= p.left.len()
            &&& b.processed <= p.processed && b.processed <= n
            &&& b.actions == p.actions.take(b.actions.len() as int)
            &&& b.left == p.left.take(b.left.len() as int)
        }),
    decreases pending.len() - n,
{
    let b = passed(pending.take(n), links, limit, now, node);
    let p = passed(pending, links, limit, now, node);
    lemma_processed_bound(pending.take(n), links, limit, now, node);
    if n < pending.len() {
        lemma_passed_prefix(pending, links, limit, now, node, n + 1);
        assert(pending.take(n + 1).drop_last() =~= pending.take(n));
        let c = passed(pending.take(n + 1), links, limit, now, node);
        assert(b.actions =~= c.actions.take(b.actions.len() as int));
        assert(b.left =~= c.left.take(b.left.len() as int));
        assert(b.actions =~= p.actions.take(b.actions.len() as int));
        assert(b.left =~= p.left.take(b.left.len() as int));
    } else {
        assert(pending.take(n) =~= pending);
        assert(p.actions.take(p.actions.len() as int) =~= p.actions);
        assert(p.left.take(p.left.len() as int) =~= p.left);
    }
}

proof fn lemma_processed_bound(
    pending: Seq<MessageModel>,
    links: Seq<LinkModel>,
    limit: Option<usize>,
    now: i64,
    node: Option<[u8; 16]>,
)
    ensures
        passed(pending, links, limit, now, node).processed <= pending.len(),
    decreases pending.len(),
{
    if pending.len() > 0 {
        lemma_processed_bound(pending.drop_last(), links, limit, now, node);
    }
}

/// A pass that plans deliveries does what each message calls for, unless the limit is used up:
/// what goes out without a link goes out as in a plain pass, and for a message that is
/// delivered over a link the plan is told, while the message stays with what the plan made of
/// it.  Where there is no link, such a message waits until it is due.
pub proof fn planned_passes_do_what_is_called_for(
    pending: Seq<MessageModel>,
    links: Seq<LinkModel>,
    limit: Option<usize>,
    now: i64,
    node: Option<[u8; 16]>,
    i: int,
    a: ActionModel,
)
    requires
        0 <= i < pending.len(),
        limit matches Some(most) ==> i < most || passed(
            pending,
            links,
            limit,
            now,
            node,
        ).processed < most,
    ensures
        ({
            let p = passed(pending, links, limit, now, node);
            let m = pending[i];
            let absent = links[i].reusable_link == DirectReusableLinkState::Absent;
            let (next, plan) = planned_delivery(
                MessageModel { state: MessageState::Sending, ..m },
                links[i].identity_known,
                links[i].hops,
                links[i].reusable_link,
                now,
            );
            &&& is_called_for(a, m, now, node) && !(a is PlanDirect) && !(a is DeliverDirect)
                ==> p.actions.contains(a)
            &&& must_wait(m, now, node) ==> p.left.contains(m)
            &&& is_alive(m, now) && m.method == DeliveryMethod::Direct && absent && now < due_at(m)
                ==> p.left.contains(m)
            &&& is_alive(m, now) && m.method == DeliveryMethod::Direct && !(absent && now < due_at(
                m,
            )) ==> p.left.contains(next) && (plan != DirectDeliveryPlan::DeferTerminalFailure
                ==> p.actions.contains(
                ActionModel::PlanDirect { message: next, dest_hash: m.destination_hash, plan },
            ))
        }),
{
    lemma_passed_prefix(pending, links, limit, now, node, i);
    lemma_passed_prefix(pending, links, limit, now, node, i + 1);
    assert(pending.take(i + 1).drop_last() =~= pending.take(i));
    assert(pending.take(i + 1).last() == pending[i]);
    let b = passed(pending.take(i), links, limit, now, node);
    let c = passed(pending.take(i + 1), links, limit, now, node);
    let p = passed(pending, links, limit, now, node);
    assert(!is_used_up(b.processed, limit));
    let s = step(pending[i], links[i], now, node);
    match s.action {
        Some(x) => {
            assert(c.actions[b.actions.len() as int] == x);
            assert(p.actions[b.actions.len() as int] == x);
        },
        None => {},
    }
    match s.left {
        Some(x) => {
            assert(c.left[b.left.len() as int] == x);
            assert(p.left[b.left.len() as int] == x);
        },
        None => {},
    }
}

/// A pass that plans deliveries does nothing that no message calls for, and makes no plan but
/// the one that follows from what is known of the link.
pub proof fn planned_passes_do_nothing_uncalled_for(
    pending: Seq<MessageModel>,
    links: Seq<LinkModel>,
    limit: Option<usize>,
    now: i64,
    node: Option<[u8; 16]>,
    k: int,
)
    requires
        0 <= k < passed(pending, links, limit, now, node).actions.len(),
    ensures
        ({
            let a = passed(pending, links, limit, now, node).actions[k];
            &&& !(a is DeliverDirect)
            &&& exists|i: int|
                0 <= i < pending.len() && is_called_for(a, #[trigger] pending[i], now, node) && (
                a matches ActionModel::PlanDirect { message, dest_hash, plan } ==> (message, plan)
                    == planned_delivery(
                    MessageModel { state: MessageState::Sending, ..pending[i] },
                    links[i].identity_known,
                    links[i].hops,
                    links[i].reusable_link,
                    now,
                ) && (links[i].reusable_link == DirectReusableLinkState::Absent ==> due_at(
                    pending[i],
                ) <= now))
        }),
    decreases pending.len(),
{
    if pending.len() > 0 {
        let rest = pending.drop_last();
        let b = passed(rest, links, limit, now, node);
        let a = passed(pending, links, limit, now, node).actions[k];
        if k < b.actions.len() {
            planned_passes_do_nothing_uncalled_for(rest, links, limit, now, node, k);
            let i = choose|i: int|
                0 <= i < rest.len() && is_called_for(a, #[trigger] rest[i], now, node) && (
                a matches ActionModel::PlanDirect { message, dest_hash, plan } ==> (message, plan)
                    == planned_delivery(
                    MessageModel { state: MessageState::Sending, ..rest[i] },
                    links[i].identity_known,
                    links[i].hops,
                    links[i].reusable_link,
                    now,
                ) && (links[i].reusable_link == DirectReusableLinkState::Absent ==> due_at(rest[i])
                    <= now));
            assert(pending[i] == rest[i]);
        } else {
            assert(is_called_for(a, pending[pending.len() - 1], now, node));
        }
    }
}

/// The two kinds of pass agree on every message that is not delivered over a link.
pub proof fn passes_agree_without_links(
    m: MessageModel,
    link: LinkModel,
    now: i64,
    node: Option<[u8; 16]>,
    keep_direct: bool,
)
    requires
        m.method != DeliveryMethod::Direct || !is_alive(m, now),
    ensures
        step(m, link, now, node).action == outcome(m, now, node, keep_direct),
        step(m, link, now, node).left is Some <==> outcome(m, now, node, keep_direct) is None,
{
}

/// A pass with direct deliveries keeps the order: what comes of one more message at the end of
/// the queue comes behind everything else, and it is left alone where the limit is used up.
pub proof fn planned_passes_keep_the_order(
    pending: Seq<MessageModel>,
    m: MessageModel,
    links: Seq<LinkModel>,
    limit: Option<usize>,
    now: i64,
    node: Option<[u8; 16]>,
)
    ensures
        ({
            let p = passed(pending, links, limit, now, node);
            let q = passed(pending.push(m), links, limit, now, node);
            let s = step(m, links[pending.len() as int], now, node);
            let used_up = limit is Some && p.processed >= limit->0;
            &&& used_up ==> q.actions == p.actions && q.left == p.left.push(m) && q.processed
                == p.processed
            &&& !used_up ==> {
                &&& s.action is None ==> q.actions == p.actions
                &&& s.action is Some ==> q.actions == p.actions.push(s.action->0)
                &&& s.left is None ==> q.left == p.left
                &&& s.left is Some ==> q.left == p.left.push(s.left->0)
            }
        }),
        passed(Seq::empty(), links, limit, now, node).actions.len() == 0,
        passed(Seq::empty(), links, limit, now, node).left.len() == 0,
{
    assert(pending.push(m).drop_last() =~= pending);
}

/// What counts against the limit of a pass is every message that something is done about, and a
/// direct message for which nothing more can be done as well.
pub proof fn passes_count_what_they_deal_with(
    m: MessageModel,
    link: LinkModel,
    now: i64,
    node: Option<[u8; 16]>,
)
    ensures
        ({
            let s = step(m, link, now, node);
            let planned = is_alive(m, now) && m.method == DeliveryMethod::Direct && (
            link.reusable_link != DirectReusableLinkState::Absent || due_at(m) <= now);
            &&& s.counts <==> s.action is Some || planned
            &&& !s.counts ==> s.left == Some(m)
            &&& s.left is None <==> s.action is Some && !(s.action->0 is PlanDirect)
        }),
        is_asked(m, now) <==> is_alive(m, now) && m.method == DeliveryMethod::Direct,
{
}

} // verus!
