//! The policy for delivery over a link.

use vstd::prelude::*;

use crate::clock::{after, seconds_after};
use crate::constants::{
    MessageState, DELIVERY_RETRY_WAIT, MAX_DELIVERY_ATTEMPTS, PATH_REQUEST_WAIT,
};
use crate::message::{LxMessage, MessageModel};

verus! {

/// Progress, in millionths, of a message that waits for a path.
pub const PROGRESS_PATH_REQUESTED: u32 = 10_000;

/// Progress of a message for which a link is being established.
pub const PROGRESS_LINK_REQUESTED: u32 = 30_000;

/// Progress of a message that has a link.
pub const PROGRESS_LINK_ACTIVE: u32 = 50_000;

/// The known route to a destination.
#[derive(Debug)]
pub struct DirectRouteSnapshot {
    pub destination_hash: [u8; 16],
    pub hops: u8,
    pub interface_name: Option<String>,
    /// When the route was learned, in microseconds.
    pub learned_at: Option<i64>,
    /// When the route expires, in microseconds.
    pub expires_at: Option<i64>,
}

/// A number of hops; there is at least one.
pub open spec fn at_least_one(hops: u8) -> u8 {
    if hops < 1 {
        1
    } else {
        hops
    }
}

impl DirectRouteSnapshot {
    /// A route over a number of hops, of which nothing else is known.
    pub fn new(destination_hash: [u8; 16], hops: u8) -> (s: Self)
        ensures
            s == (DirectRouteSnapshot {
                destination_hash,
                hops: at_least_one(hops),
                interface_name: None,
                learned_at: None,
                expires_at: None,
            }),
    {
        DirectRouteSnapshot {
            destination_hash,
            hops: if hops < 1 {
                1
            } else {
                hops
            },
            interface_name: None,
            learned_at: None,
            expires_at: None,
        }
    }
}

/// The link to a destination that a message could use.
#[derive(Debug, Clone, Copy, PartialEq, Eq, Structural)]
pub enum DirectReusableLinkState {
    Absent,
    Pending,
    Active,
    Closed { activated: bool },
}

/// What is known when a delivery is planned.
#[derive(Debug)]
pub struct DirectDeliveryPlanInput {
    pub identity_known: bool,
    pub route: Option<DirectRouteSnapshot>,
    pub reusable_link: DirectReusableLinkState,
}

/// How a message is to be delivered.
#[derive(Debug, Clone, Copy, PartialEq, Eq, Structural)]
pub enum DirectDeliveryPlan {
    UseReusableLink,
    WaitForReusableLink,
    StartNewLink { hops: u8 },
    RequestPath { drop_existing: bool },
    DeferTerminalFailure,
    Fail,
}

/// Progress that is at least `p`.
pub open spec fn raised(progress: u32, p: u32) -> u32 {
    if progress < p {
        p
    } else {
        progress
    }
}

/// A message that waits for a path.
pub open spec fn awaiting_path(m: MessageModel, now: i64) -> MessageModel {
    MessageModel {
        next_delivery_attempt: after(now, PATH_REQUEST_WAIT),
        progress: raised(m.progress, PROGRESS_PATH_REQUESTED),
        ..m
    }
}

/// A message with one more attempt at `now`.
pub open spec fn attempted(m: MessageModel, now: i64) -> MessageModel {
    MessageModel {
        delivery_attempts: (m.delivery_attempts + 1) as u32,
        last_delivery_attempt: now,
        ..m
    }
}

/// A message in a state.
pub open spec fn in_state(m: MessageModel, state: MessageState) -> MessageModel {
    MessageModel { state, ..m }
}

/// How a message is to be delivered, and what becomes of it.
pub open spec fn planned_delivery(
    m: MessageModel,
    identity_known: bool,
    hops: Option<u8>,
    link: DirectReusableLinkState,
    now: i64,
) -> (MessageModel, DirectDeliveryPlan) {
    if m.delivery_attempts > MAX_DELIVERY_ATTEMPTS {
        (in_state(m, MessageState::Failed), DirectDeliveryPlan::Fail)
    } else {
        match link {
            DirectReusableLinkState::Active => (
                MessageModel {
                    state: MessageState::Sending,
                    progress: raised(m.progress, PROGRESS_LINK_ACTIVE),
                    ..m
                },
                DirectDeliveryPlan::UseReusableLink,
            ),
            DirectReusableLinkState::Pending => (m, DirectDeliveryPlan::WaitForReusableLink),
            DirectReusableLinkState::Closed { activated } => (
                awaiting_path(m, now),
                DirectDeliveryPlan::RequestPath { drop_existing: true },
            ),
            DirectReusableLinkState::Absent => {
                let tried = attempted(m, now);
                if !identity_known {
                    (
                        awaiting_path(tried, now),
                        DirectDeliveryPlan::RequestPath { drop_existing: false },
                    )
                } else if tried.delivery_attempts >= MAX_DELIVERY_ATTEMPTS {
                    (
                        MessageModel {
                            next_delivery_attempt: after(now, DELIVERY_RETRY_WAIT),
                            ..tried
                        },
                        DirectDeliveryPlan::DeferTerminalFailure,
                    )
                } else {
                    match hops {
                        Some(h) => (
                            MessageModel {
                                next_delivery_attempt: after(now, DELIVERY_RETRY_WAIT),
                                progress: raised(m.progress, PROGRESS_LINK_REQUESTED),
                                ..tried
                            },
                            DirectDeliveryPlan::StartNewLink { hops: at_least_one(h) },
                        ),
                        None => (
                            awaiting_path(tried, now),
                            DirectDeliveryPlan::RequestPath { drop_existing: false },
                        ),
                    }
                }
            },
        }
    }
}

/// The hops of a route.
pub open spec fn hops_of(route: Option<DirectRouteSnapshot>) -> Option<u8> {
    match route {
        Some(r) => Some(r.hops),
        None => None,
    }
}

fn raise_progress(message: &mut LxMessage, p: u32)
    ensures
        final(message)@ == (MessageModel { progress: raised(old(message)@.progress, p), ..old(
            message,
        )@ }),
{
    if message.progress < p {
        message.progress = p;
    }
}

/// Plans the delivery of a message over a link.  What it takes to get a path or a link is
/// left to the caller.
pub fn plan_direct_delivery(
    message: &mut LxMessage,
    input: &DirectDeliveryPlanInput,
    now: i64,
) -> (plan: DirectDeliveryPlan)
    ensures
        (final(message)@, plan) == planned_delivery(
            old(message)@,
            input.identity_known,
            hops_of(input.route),
            input.reusable_link,
            now,
        ),
{
    if message.delivery_attempts > MAX_DELIVERY_ATTEMPTS {
        message.mark_failed();
        return DirectDeliveryPlan::Fail;
    }
    match input.reusable_link {
        DirectReusableLinkState::Active => {
            raise_progress(message, PROGRESS_LINK_ACTIVE);
            if message.state != MessageState::Sending {
                message.mark_sending();
            }
            return DirectDeliveryPlan::UseReusableLink;
        },
        DirectReusableLinkState::Pending => {
            return DirectDeliveryPlan::WaitForReusableLink;
        },
        DirectReusableLinkState::Closed { .. } => {
            message.next_delivery_attempt = seconds_after(now, PATH_REQUEST_WAIT);
            raise_progress(message, PROGRESS_PATH_REQUESTED);
            return DirectDeliveryPlan::RequestPath { drop_existing: true };
        },
        DirectReusableLinkState::Absent => {},
    }
    message.delivery_attempts = message.delivery_attempts + 1;
    message.last_delivery_attempt = now;
    if !input.identity_known {
        message.next_delivery_attempt = seconds_after(now, PATH_REQUEST_WAIT);
        raise_progress(message, PROGRESS_PATH_REQUESTED);
        return DirectDeliveryPlan::RequestPath { drop_existing: false };
    }
    message.next_delivery_attempt = seconds_after(now, DELIVERY_RETRY_WAIT);
    if message.delivery_attempts >= MAX_DELIVERY_ATTEMPTS {
        return DirectDeliveryPlan::DeferTerminalFailure;
    }
    match &input.route {
        Some(route) => {
            raise_progress(message, PROGRESS_LINK_REQUESTED);
            DirectDeliveryPlan::StartNewLink {
                hops: if route.hops < 1 {
                    1
                } else {
                    route.hops
                },
            }
        },
        None => {
            message.next_delivery_attempt = seconds_after(now, PATH_REQUEST_WAIT);
            raise_progress(message, PROGRESS_PATH_REQUESTED);
            DirectDeliveryPlan::RequestPath { drop_existing: false }
        },
    }
}

/// Planning never gives a message more attempts than the limit and one, never takes back
/// progress, and fails a message only beyond the limit.
pub proof fn planning_bounds_attempts(
    m: MessageModel,
    identity_known: bool,
    hops: Option<u8>,
    link: DirectReusableLinkState,
    now: i64,
)
    ensures
        ({
            let (after, plan) = planned_delivery(m, identity_known, hops, link, now);
            &&& m.delivery_attempts <= MAX_DELIVERY_ATTEMPTS ==> after.delivery_attempts
                <= MAX_DELIVERY_ATTEMPTS + 1
            &&& m.delivery_attempts <= after.delivery_attempts <= m.delivery_attempts + 1
            &&& after.progress >= m.progress
            &&& plan == DirectDeliveryPlan::Fail <==> m.delivery_attempts > MAX_DELIVERY_ATTEMPTS
        }),
{
}

/// A new link is started only where a route is known, over the hops of that route, and only
/// for a destination whose identity is known and that has no link.
pub proof fn links_are_started_over_known_routes(
    m: MessageModel,
    input: DirectDeliveryPlanInput,
    now: i64,
)
    ensures
        ({
            let (next, plan) = planned_delivery(
                m,
                input.identity_known,
                hops_of(input.route),
                input.reusable_link,
                now,
            );
            let starts = m.delivery_attempts + 1 < MAX_DELIVERY_ATTEMPTS && input.reusable_link
                == DirectReusableLinkState::Absent && input.identity_known && input.route is Some;
            &&& starts <==> plan is StartNewLink
            &&& plan matches DirectDeliveryPlan::StartNewLink { hops } ==> {
                let known = input.route->0.hops;
                input.route is Some && hops >= 1 && (known >= 1 ==> hops == known) && (known == 0
                    ==> hops == 1)
            }
            &&& starts ==> next.progress >= 30_000 && (now + DELIVERY_RETRY_WAIT * 1_000_000
                <= i64::MAX ==> next.next_delivery_attempt == now + DELIVERY_RETRY_WAIT * 1_000_000)
        }),
{
}

/// A path is requested where there is no way to the destination, and the message then waits for
/// it; a known path is dropped only where the link over it was closed.
pub proof fn paths_are_requested_where_none_is_known(
    m: MessageModel,
    input: DirectDeliveryPlanInput,
    now: i64,
)
    ensures
        ({
            let (next, plan) = planned_delivery(
                m,
                input.identity_known,
                hops_of(input.route),
                input.reusable_link,
                now,
            );
            let left = m.delivery_attempts <= MAX_DELIVERY_ATTEMPTS;
            let absent = input.reusable_link == DirectReusableLinkState::Absent;
            &&& plan == (DirectDeliveryPlan::RequestPath { drop_existing: true }) <==> left
                && input.reusable_link is Closed
            &&& plan == (DirectDeliveryPlan::RequestPath { drop_existing: false }) <==> left
                && absent && (!input.identity_known || (input.route is None
                && m.delivery_attempts + 1 < MAX_DELIVERY_ATTEMPTS))
            &&& plan is RequestPath ==> next.progress >= 10_000 && (now + PATH_REQUEST_WAIT
                * 1_000_000 <= i64::MAX ==> next.next_delivery_attempt == now + PATH_REQUEST_WAIT
                * 1_000_000)
        }),
{
}

/// A link that is there is used, one that is being established is waited for, and the last
/// attempt is put off before the message fails.
pub proof fn links_that_are_there_are_used(
    m: MessageModel,
    input: DirectDeliveryPlanInput,
    now: i64,
)
    ensures
        ({
            let (next, plan) = planned_delivery(
                m,
                input.identity_known,
                hops_of(input.route),
                input.reusable_link,
                now,
            );
            let left = m.delivery_attempts <= MAX_DELIVERY_ATTEMPTS;
            &&& plan == DirectDeliveryPlan::UseReusableLink <==> left && input.reusable_link
                == DirectReusableLinkState::Active
            &&& plan == DirectDeliveryPlan::UseReusableLink ==> next.state == MessageState::Sending
                && next.progress >= 50_000
            &&& plan == DirectDeliveryPlan::WaitForReusableLink <==> left && input.reusable_link
                == DirectReusableLinkState::Pending
            &&& plan == DirectDeliveryPlan::WaitForReusableLink ==> next == m
            &&& plan == DirectDeliveryPlan::DeferTerminalFailure <==> left && input.identity_known
                && input.reusable_link == DirectReusableLinkState::Absent && m.delivery_attempts + 1
                >= MAX_DELIVERY_ATTEMPTS
            &&& plan == DirectDeliveryPlan::DeferTerminalFailure ==> next.progress == m.progress
                && (now + DELIVERY_RETRY_WAIT * 1_000_000 <= i64::MAX ==> next.next_delivery_attempt
                == now + DELIVERY_RETRY_WAIT * 1_000_000)
            &&& plan == DirectDeliveryPlan::Fail ==> next.state == MessageState::Failed
        }),
{
}

/// Planning counts an attempt exactly where there is no link, and touches nothing of a message
/// but its state, its progress and its schedule.
pub proof fn planning_counts_attempts_without_a_link(
    m: MessageModel,
    input: DirectDeliveryPlanInput,
    now: i64,
)
    ensures
        ({
            let (next, plan) = planned_delivery(
                m,
                input.identity_known,
                hops_of(input.route),
                input.reusable_link,
                now,
            );
            let counted = m.delivery_attempts <= MAX_DELIVERY_ATTEMPTS && input.reusable_link
                == DirectReusableLinkState::Absent;
            &&& counted ==> next.delivery_attempts == m.delivery_attempts + 1
                && next.last_delivery_attempt == now
            &&& !counted ==> next.delivery_attempts == m.delivery_attempts
                && next.last_delivery_attempt == m.last_delivery_attempt
            &&& next.progress == m.progress || (m.progress < next.progress && (next.progress
                == 10_000 || next.progress == 30_000 || next.progress == 50_000))
            &&& !(plan is StartNewLink || plan is RequestPath || plan
                == DirectDeliveryPlan::DeferTerminalFailure) ==> next.next_delivery_attempt
                == m.next_delivery_attempt
            &&& !(plan == DirectDeliveryPlan::Fail || plan == DirectDeliveryPlan::UseReusableLink)
                ==> next.state == m.state
            &&& next == (MessageModel {
                state: next.state,
                progress: next.progress,
                delivery_attempts: next.delivery_attempts,
                last_delivery_attempt: next.last_delivery_attempt,
                next_delivery_attempt: next.next_delivery_attempt,
                ..m
            })
        }),
{
}

} // verus!
