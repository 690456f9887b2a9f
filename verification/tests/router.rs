//! The router: queues, planning, peers, tickets and periodic jobs.

use lxmf_core::constants::{
    DeliveryMethod, MessageState, PeerState, COST_TICKET, DELIVERY_RETRY_WAIT, DESTINATION_LENGTH,
    JOB_TRANSIENT_INTERVAL, MAX_DELIVERY_ATTEMPTS, MESSAGE_EXPIRY, PATH_REQUEST_WAIT,
    PROCESSING_INTERVAL, TICKET_LENGTH,
};
use lxmf_core::crypto::truncated_hash;
use lxmf_core::memory::MemoryStorage;
use lxmf_core::message::{LxMessage, MessageError};
use lxmf_core::peer::LxmPeer;
use lxmf_core::router::direct::{
    plan_direct_delivery, DirectDeliveryPlan, DirectDeliveryPlanInput, DirectReusableLinkState,
    DirectRouteSnapshot,
};
use lxmf_core::router::outbound::OutboundAction;
use lxmf_core::router::peers::AutopeerCandidate;
use lxmf_core::router::queue::SendError;
use lxmf_core::router::stamps::DeferredStampResult;
use lxmf_core::router::{LxmRouter, RouterConfig, RouterConfigExt};
use lxmf_core::storage::{LxmfStorage, StoredMessage, TransientIdKind};

const SECOND: i64 = 1_000_000;
const NOW: i64 = 1_700_000_000 * SECOND;
const KEY: [u8; 32] = [7; 32];

fn at(micros: i64) -> u64 {
    (micros as f64 / 1_000_000.0).to_bits()
}

fn seconds(n: u64) -> i64 {
    n as i64 * SECOND
}

fn fresh() -> LxmRouter<MemoryStorage> {
    LxmRouter::new(RouterConfig::default())
}

fn durable(storage: MemoryStorage) -> LxmRouter<MemoryStorage> {
    LxmRouter::with_shared_storage_backend(RouterConfig::default(), storage)
}

fn message(title: &str, content: &str, method: DeliveryMethod) -> LxMessage {
    LxMessage::new([0xAA; 16], [0xBB; 16], title, content, method, at(NOW))
}

fn signed(title: &str, content: &str, method: DeliveryMethod) -> LxMessage {
    let mut msg = message(title, content, method);
    msg.sign(&KEY).unwrap();
    msg
}

fn no_stamp(_id: &[u8; 32], _cost: u8) -> Option<([u8; 32], u32)> {
    None
}

fn one_stamp(_id: &[u8; 32], _cost: u8) -> Option<([u8; 32], u32)> {
    Some(([5; 32], 9))
}

fn no_proof(_id: &[u8; 32], _stamp: &[u8; 32], _cost: u8) -> bool {
    false
}

fn send(router: &mut LxmRouter<MemoryStorage>, msg: LxMessage) {
    router.send(msg, NOW, no_stamp);
}

fn durable_outbound_message(method: DeliveryMethod) -> LxMessage {
    let mut message =
        LxMessage::new([0xA1; 16], [0xB1; 16], "durable", "outbound", method, at(NOW));
    message.sign(&KEY).unwrap();
    message
}

fn direct_policy_message() -> LxMessage {
    let mut message = message("Direct", "hello", DeliveryMethod::Direct);
    message.compute_hash().unwrap();
    message
}

fn plan_input(
    identity_known: bool,
    route: Option<DirectRouteSnapshot>,
    reusable_link: DirectReusableLinkState,
) -> DirectDeliveryPlanInput {
    DirectDeliveryPlanInput { identity_known, route, reusable_link }
}

#[test]
fn sqlite_outbound_queue_recovers_and_loads_only_when_ready() {
    let mut message = durable_outbound_message(DeliveryMethod::Direct);
    message.delivery_attempts = 2;
    message.progress = 400_000;
    message.next_delivery_attempt = NOW + seconds(3_600);
    let message_id = message.message_id.unwrap();

    let mut router = durable(MemoryStorage::new());
    send(&mut router, message);
    assert!(router.pending_outbound.is_empty());
    assert_eq!(router.stats().pending_outbound, 1);

    let mut router = durable(router.storage);
    assert!(router.pending_outbound.is_empty());
    assert_eq!(router.outbound_summaries(1)[0].message_id, Some(message_id));
    assert!(router.process_outbound(NOW).is_empty());
    let mut stored = router.storage.outbound_message(&message_id).unwrap().unwrap();
    stored.metadata.next_delivery_attempt = 0;
    router.storage.update_outbound_delivery(&stored.metadata).unwrap();
    let actions = router.process_outbound(NOW);
    let OutboundAction::DeliverDirect { message, .. } = &actions[0] else {
        panic!("recovered direct message must be delivered");
    };
    assert_eq!(message.delivery_attempts, 2);
    assert_eq!(message.progress, 400_000);
    assert_eq!(router.stats().pending_outbound, 0);
}

#[test]
fn sqlite_outbound_expiry_attempts_and_callbacks_are_terminal() {
    let mut router = durable(MemoryStorage::new());

    let mut expired = durable_outbound_message(DeliveryMethod::Direct);
    expired.timestamp = at(NOW - seconds(MESSAGE_EXPIRY) - SECOND);
    send(&mut router, expired);
    assert!(matches!(router.process_outbound(NOW).as_slice(), [OutboundAction::Expired(_)]));

    let mut exhausted = durable_outbound_message(DeliveryMethod::Direct);
    exhausted.delivery_attempts = MAX_DELIVERY_ATTEMPTS + 1;
    send(&mut router, exhausted);
    let exhausted_actions = router.process_outbound(NOW);
    assert!(
        matches!(exhausted_actions.as_slice(), [OutboundAction::Failed(_)]),
        "unexpected actions: {exhausted_actions:?}"
    );

    let _ = router.take_notices();
    let callback_message = durable_outbound_message(DeliveryMethod::Direct);
    let callback_id = callback_message.message_id.unwrap();
    send(&mut router, callback_message);
    assert!(router.mark_outbound_failed(&callback_id));
    let notices = router.take_notices();
    assert_eq!(notices.len(), 1);
    assert!(!notices[0].delivered);
    assert_eq!(router.stats().pending_outbound, 0);
}

#[test]
fn sqlite_deferred_stamp_recovers_after_restart() {
    let mut message = durable_outbound_message(DeliveryMethod::Direct);
    message.stamp_cost = Some(0);
    let mut router = durable(MemoryStorage::new());
    assert!(router.defer_stamp(message).is_none());
    assert_eq!(router.stats().pending_deferred_stamps, 1);

    let mut router = durable(router.storage);
    let job = router.process_deferred_stamps(NOW, DeferredStampResult::Pending, false, one_stamp);
    assert!(job.is_none());
    assert_eq!(router.stats().pending_deferred_stamps, 0);
    assert_eq!(router.stats().pending_outbound, 1);
}

#[test]
fn sqlite_large_outbound_queue_stays_out_of_ram() {
    let mut router = durable(MemoryStorage::new());
    for index in 0..64_u8 {
        let mut message = durable_outbound_message(DeliveryMethod::Direct);
        message.content = format!("outbound-{index}");
        message.sign(&KEY).unwrap();
        message.next_delivery_attempt = NOW + seconds(3_600);
        send(&mut router, message);
    }

    assert_eq!(router.stats().pending_outbound, 64);
    assert!(router.pending_outbound.is_empty());
    assert!(router.outbound_summaries(8).len() <= 8);
    assert!(router.process_outbound(NOW).is_empty());
    assert!(router.pending_outbound.is_empty());
}

#[test]
fn sqlite_tickets_and_stamp_costs_survive_restart() {
    let destination = [0xD1; 16];
    let token = [0xE1; 16];
    let mut router = durable(MemoryStorage::new());
    router.remember_ticket(destination, token, NOW + seconds(3_600));
    router.set_stamp_cost(destination, 12, NOW);
    assert!(router.ticket_store.all().is_empty());
    assert!(router.outbound_stamp_costs.is_empty());

    let router = durable(router.storage);
    assert_eq!(router.get_outbound_ticket(&destination, NOW), Some(token));
    assert_eq!(router.get_stamp_cost(&destination, NOW), Some(12));
}

#[test]
fn test_router_creation() {
    let router = fresh();
    assert!(router.pending_outbound.is_empty());
    assert!(router.peers.is_empty());
    assert!(router.propagation_store.is_empty());
}

#[test]
fn high_level_snapshots_are_owned_and_bounded() {
    let mut router = fresh();
    router.allow_control([0x11; 16]);
    router.add_static_peer([0x22; 16]);
    send(&mut router, direct_policy_message());

    let mut allowed = router.control_allowed_identities(10);
    let mut peers = router.peer_hashes(10);
    let outbound = router.outbound_summaries(1);

    allowed.clear();
    peers.clear();
    assert!(router.is_control_allowed(&[0x11; 16]));
    assert!(router.has_peer(&[0x22; 16]));
    assert_eq!(outbound.len(), 1);
    assert_eq!(outbound[0].destination_hash, [0xAA; 16]);
    assert!(router.outbound_summaries(0).is_empty());
}

#[test]
fn peer_sync_is_updated_through_router_command() {
    let mut router = fresh();
    let peer_hash = [0x33; 16];
    assert!(!router.request_peer_sync(&peer_hash));
    router.add_static_peer(peer_hash);
    assert!(router.request_peer_sync(&peer_hash));
}

#[test]
fn propagation_metadata_queries_are_owned_and_paginated() {
    let mut storage = MemoryStorage::new();
    for byte in [3_u8, 1, 2] {
        storage
            .insert_message(&StoredMessage::new(
                [byte; 32],
                [byte + 10; 32],
                [byte + 20; 16],
                i64::from(byte),
                u16::from(byte),
                vec![byte],
                false,
            ))
            .unwrap();
    }
    let router = LxmRouter::with_storage_backend(RouterConfig::default(), storage);

    let first = router.propagation_metadata_page(None, 2).unwrap();
    assert_eq!(first.len(), 2);
    assert_eq!(first[0].transient_id, [1; 32]);
    assert_eq!(first[1].transient_id, [2; 32]);

    let second = router.propagation_metadata_page(Some(&first[1].transient_id), 2).unwrap();
    assert_eq!(second.len(), 1);
    assert_eq!(second[0].transient_id, [3; 32]);
    assert_eq!(router.propagation_metadata(&[3; 32]).unwrap().unwrap().stamp_value, 3);
    assert!(router.propagation_metadata_page(None, 0).unwrap().is_empty());
}

#[test]
fn transient_ids_use_injected_memory_storage() {
    let mut router =
        LxmRouter::with_storage_backend(RouterConfig::default(), MemoryStorage::new());
    let transient_id = [0x55; 32];
    assert!(!router.is_locally_delivered(&transient_id).unwrap());
    router.mark_locally_delivered(transient_id, NOW).unwrap();
    router.mark_locally_processed(transient_id, NOW).unwrap();
    assert!(router.is_locally_delivered(&transient_id).unwrap());
    assert!(router.is_locally_processed(&transient_id).unwrap());
}

#[test]
fn transient_ids_survive_router_restart_with_sqlite() {
    let transient_id = [0x66; 32];
    let mut router =
        LxmRouter::with_storage_backend(RouterConfig::default(), MemoryStorage::new());
    router.mark_locally_delivered(transient_id, NOW).unwrap();
    let restarted = LxmRouter::with_storage_backend(RouterConfig::default(), router.storage);
    assert!(restarted.is_locally_delivered(&transient_id).unwrap());
}

#[test]
fn run_jobs_tick_gates_on_processing_interval() {
    let mut router = fresh();
    router.run_jobs_tick(NOW);
    assert_eq!(router.processing_count, 1);
    router.run_jobs_tick(NOW);
    assert_eq!(router.processing_count, 1);
    router.last_jobs_tick = NOW - seconds(PROCESSING_INTERVAL);
    router.run_jobs_tick(NOW);
    assert_eq!(router.processing_count, 2);
}

#[test]
fn run_jobs_tick_cleans_transient_caches_at_job_interval() {
    let mut storage = MemoryStorage::new();
    storage.upsert_transient_id(TransientIdKind::LocallyDelivered, [0xAB; 32], 1).unwrap();
    let mut router = LxmRouter::with_storage_backend(RouterConfig::default(), storage);

    router.processing_count = JOB_TRANSIENT_INTERVAL - 1;
    router.last_jobs_tick = NOW - seconds(PROCESSING_INTERVAL);
    router.run_jobs_tick(NOW);

    assert!(!router.is_locally_delivered(&[0xAB; 32]).unwrap());
}

#[test]
fn test_router_config_defaults() {
    let config = RouterConfig::default();
    assert!(config.autopeer);
    assert_eq!(config.ext.autopeer_maxdepth, 4);
    assert_eq!(config.ext.propagation_cost_min, 13);
    assert_eq!(config.ext.max_peering_cost, 26);
    assert!(config.ext.processing_outbound);
    assert!(config.ext.defer_stamp_generation);
    assert!(config.ext.processing_limit.is_none());
}

#[test]
fn test_direct_delivery_plan_starts_link_with_current_path() {
    let mut msg = direct_policy_message();
    let dest = msg.destination_hash;
    let now = seconds(1000);
    let input = plan_input(
        true,
        Some(DirectRouteSnapshot::new(dest, 4)),
        DirectReusableLinkState::Absent,
    );
    let plan = plan_direct_delivery(&mut msg, &input, now);

    assert_eq!(plan, DirectDeliveryPlan::StartNewLink { hops: 4 });
    assert_eq!(msg.delivery_attempts, 1);
    assert_eq!(msg.last_delivery_attempt, now);
    assert_eq!(msg.next_delivery_attempt, now + seconds(DELIVERY_RETRY_WAIT));
    assert_eq!(msg.progress, 30_000);
}

#[test]
fn test_direct_delivery_plan_requests_path_for_unknown_identity() {
    let mut msg = direct_policy_message();
    let now = seconds(1000);
    let input = plan_input(false, None, DirectReusableLinkState::Absent);
    let plan = plan_direct_delivery(&mut msg, &input, now);

    assert_eq!(plan, DirectDeliveryPlan::RequestPath { drop_existing: false });
    assert_eq!(msg.delivery_attempts, 1);
    assert_eq!(msg.last_delivery_attempt, now);
    assert_eq!(msg.next_delivery_attempt, now + seconds(PATH_REQUEST_WAIT));
    assert_eq!(msg.progress, 10_000);
}

#[test]
fn test_direct_delivery_plan_reuses_active_link_without_attempt_increment() {
    let mut msg = direct_policy_message();
    let input = plan_input(true, None, DirectReusableLinkState::Active);
    let plan = plan_direct_delivery(&mut msg, &input, seconds(1000));

    assert_eq!(plan, DirectDeliveryPlan::UseReusableLink);
    assert_eq!(msg.delivery_attempts, 0);
    assert_eq!(msg.state, MessageState::Sending);
    assert_eq!(msg.progress, 50_000);
}

#[test]
fn test_direct_delivery_plan_waits_for_pending_link() {
    let mut msg = direct_policy_message();
    let dest = msg.destination_hash;
    let input = plan_input(
        true,
        Some(DirectRouteSnapshot::new(dest, 2)),
        DirectReusableLinkState::Pending,
    );
    let plan = plan_direct_delivery(&mut msg, &input, seconds(1000));

    assert_eq!(plan, DirectDeliveryPlan::WaitForReusableLink);
    assert_eq!(msg.delivery_attempts, 0);
    assert_eq!(msg.next_delivery_attempt, 0);
}

#[test]
fn test_direct_delivery_plan_defers_terminal_failure_at_attempt_boundary() {
    let mut msg = direct_policy_message();
    let dest = msg.destination_hash;
    msg.delivery_attempts = MAX_DELIVERY_ATTEMPTS - 1;
    let now = seconds(1000);
    let input = plan_input(
        true,
        Some(DirectRouteSnapshot::new(dest, 1)),
        DirectReusableLinkState::Absent,
    );
    let plan = plan_direct_delivery(&mut msg, &input, now);

    assert_eq!(plan, DirectDeliveryPlan::DeferTerminalFailure);
    assert_eq!(msg.delivery_attempts, MAX_DELIVERY_ATTEMPTS);
    assert_eq!(msg.next_delivery_attempt, now + seconds(DELIVERY_RETRY_WAIT));
}

#[test]
fn test_direct_delivery_plan_requests_rediscovery_for_closed_link() {
    let mut msg = direct_policy_message();
    let dest = msg.destination_hash;
    let now = seconds(1000);
    let input = plan_input(
        true,
        Some(DirectRouteSnapshot::new(dest, 3)),
        DirectReusableLinkState::Closed { activated: false },
    );
    let plan = plan_direct_delivery(&mut msg, &input, now);

    assert_eq!(plan, DirectDeliveryPlan::RequestPath { drop_existing: true });
    assert_eq!(msg.delivery_attempts, 0);
    assert_eq!(msg.next_delivery_attempt, now + seconds(PATH_REQUEST_WAIT));
    assert_eq!(msg.progress, 10_000);
}

#[test]
fn test_direct_delivery_plan_fails_above_max_attempts() {
    let mut msg = direct_policy_message();
    let dest = msg.destination_hash;
    msg.delivery_attempts = MAX_DELIVERY_ATTEMPTS + 1;
    let input = plan_input(
        true,
        Some(DirectRouteSnapshot::new(dest, 1)),
        DirectReusableLinkState::Absent,
    );
    let plan = plan_direct_delivery(&mut msg, &input, seconds(1000));

    assert_eq!(plan, DirectDeliveryPlan::Fail);
    assert_eq!(msg.state, MessageState::Failed);
}

#[test]
fn test_process_outbound_with_direct_keeps_message_pending() {
    let mut router = fresh();
    let msg = direct_policy_message();
    let msg_hash = msg.hash;
    let dest = msg.destination_hash;
    send(&mut router, msg);

    let actions = router.process_outbound_with_direct(NOW, &|message: &LxMessage, _now: i64| {
        plan_input(
            true,
            Some(DirectRouteSnapshot::new(message.destination_hash, 4)),
            DirectReusableLinkState::Absent,
        )
    });

    assert_eq!(router.pending_outbound.len(), 1);
    let pending = &router.pending_outbound[0];
    assert_eq!(pending.hash, msg_hash);
    assert_eq!(pending.state, MessageState::Sending);
    assert_eq!(pending.delivery_attempts, 1);
    assert_eq!(pending.progress, 30_000);
    match actions.as_slice() {
        [OutboundAction::PlanDirect { message, dest_hash, plan }] => {
            assert_eq!(*dest_hash, dest);
            assert_eq!(message.hash, msg_hash);
            assert_eq!(*plan, DirectDeliveryPlan::StartNewLink { hops: 4 });
        }
        other => panic!("expected PlanDirect StartNewLink, got {other:?}"),
    }
}

#[test]
fn test_process_outbound_with_direct_polls_pending_link_despite_retry_deadline() {
    let mut router = fresh();
    let mut msg = direct_policy_message();
    msg.next_delivery_attempt = NOW + seconds(3600);
    let msg_hash = msg.hash;
    send(&mut router, msg);

    let actions = router.process_outbound_with_direct(NOW, &|_message: &LxMessage, _now: i64| {
        plan_input(true, None, DirectReusableLinkState::Pending)
    });

    assert_eq!(router.pending_outbound.len(), 1);
    assert_eq!(router.pending_outbound[0].hash, msg_hash);
    assert_eq!(router.pending_outbound[0].delivery_attempts, 0);
    match actions.as_slice() {
        [OutboundAction::PlanDirect { plan, .. }] => {
            assert_eq!(*plan, DirectDeliveryPlan::WaitForReusableLink);
        }
        other => panic!("expected PlanDirect WaitForReusableLink, got {other:?}"),
    }
}

#[test]
fn test_outbound_terminal_helpers_update_pending_queue() {
    let mut router = fresh();
    let first = direct_policy_message();
    let first_hash = first.hash.expect("first hash");
    send(&mut router, first);

    assert!(router.defer_outbound_for_path_request(&first_hash, seconds(1000)));
    assert_eq!(
        router.pending_outbound[0].next_delivery_attempt,
        seconds(1000) + seconds(PATH_REQUEST_WAIT)
    );
    assert_eq!(router.pending_outbound[0].progress, 10_000);

    assert!(router.mark_outbound_delivered(&first_hash));
    assert!(router.pending_outbound.is_empty());

    let second = direct_policy_message();
    let second_hash = second.hash.expect("second hash");
    send(&mut router, second);
    assert!(router.mark_outbound_failed(&second_hash));
    assert!(router.pending_outbound.is_empty());
}

#[test]
fn test_allow_disallow() {
    let mut router = fresh();
    let hash = [0xAA; 16];

    assert!(router.is_allowed(&hash));

    router.allow(hash);
    assert!(router.is_allowed(&hash));
    assert!(!router.is_allowed(&[0xBB; 16]));

    router.disallow(&hash);
    assert!(router.is_allowed(&hash));
}

#[test]
fn test_block_unblock() {
    let mut router = fresh();
    let hash = [0xAA; 16];

    assert!(router.is_allowed(&hash));

    router.block(hash);
    assert!(!router.is_allowed(&hash));

    router.unblock(&hash);
    assert!(router.is_allowed(&hash));
}

#[test]
fn blocking_outweighs_allowing() {
    let mut router = fresh();
    let hash = [0xAA; 16];
    router.allow(hash);
    router.block(hash);
    assert!(!router.is_allowed(&hash));
}

#[test]
fn test_prioritise_unprioritise() {
    let mut router = fresh();
    let hash = [0xAA; 16];

    router.prioritise(hash, 5);
    assert_eq!(router.prioritized.get(&hash), Some(&5));

    router.unprioritise(&hash);
    assert!(!router.prioritized.contains_key(&hash));
}

#[test]
fn test_add_peer() {
    let mut router = fresh();
    let peer = LxmPeer::new([0xAA; 16]);
    assert!(router.add_peer(peer));
    assert_eq!(router.peers.len(), 1);
}

#[test]
fn test_max_peers() {
    let config = RouterConfig { max_peers: 2, ..Default::default() };
    let mut router = LxmRouter::new(config);

    assert!(router.add_peer(LxmPeer::new([0x01; 16])));
    assert!(router.add_peer(LxmPeer::new([0x02; 16])));
    assert!(!router.add_peer(LxmPeer::new([0x03; 16])));
}

#[test]
fn test_stamp_cost_cache() {
    let mut router = fresh();
    let dest = [0xAA; 16];

    assert!(router.get_stamp_cost(&dest, NOW).is_none());

    router.set_stamp_cost(dest, 12, NOW);
    assert_eq!(router.get_stamp_cost(&dest, NOW), Some(12));
}

#[test]
fn test_send_uses_outbound_ticket_stamp_immediately() {
    let mut router = fresh();
    let dest = [0xAA; 16];
    router.remember_ticket(dest, [0x42; 16], NOW + seconds(60));
    router.set_stamp_cost(dest, 16, NOW);

    let msg = signed("ticket", "stamp", DeliveryMethod::Direct);
    send(&mut router, msg);

    assert!(router.pending_deferred_stamps.is_empty());
    assert_eq!(router.pending_outbound.len(), 1);
    let queued = &router.pending_outbound[0];
    assert_eq!(queued.stamp.as_ref().map(Vec::len), Some(TICKET_LENGTH));
    assert_eq!(queued.stamp_value, Some(COST_TICKET));
}

#[test]
fn test_deferred_stamp_queue_completes_before_outbound_processing() {
    let mut router = fresh();
    let dest = [0xAA; 16];
    router.set_stamp_cost(dest, 1, NOW);

    let msg = signed("defer", "stamp", DeliveryMethod::Direct);
    let message_id = msg.message_id.unwrap();
    send(&mut router, msg);

    assert!(router.pending_outbound.is_empty());
    assert!(router.pending_deferred_stamps.contains_key(&message_id));

    let job = router
        .process_deferred_stamps(NOW, DeferredStampResult::Pending, true, no_stamp)
        .expect("a stamp is to be generated");
    assert_eq!(job.message_hash, message_id);
    assert_eq!(job.cost, 1);
    assert!(router.pending_outbound.is_empty());

    let waiting =
        router.process_deferred_stamps(NOW, DeferredStampResult::Pending, true, no_stamp);
    assert!(waiting.is_none());
    assert!(router.pending_outbound.is_empty());

    let done = DeferredStampResult::Success { stamp: [5; 32], value: 3 };
    assert!(router.process_deferred_stamps(NOW, done, true, no_stamp).is_none());

    assert!(router.pending_deferred_stamps.is_empty());
    assert_eq!(router.pending_outbound.len(), 1);
    let queued = &router.pending_outbound[0];
    assert_eq!(queued.stamp.as_ref().map(Vec::len), Some(32));
    assert!(queued.stamp_value.unwrap_or(0) >= 1);
}

#[test]
fn deferred_stamps_spawn_from_blocking_thread_via_stored_handle() {
    let mut router = fresh();
    let dest = [0xAA; 16];
    router.set_stamp_cost(dest, 1, NOW);

    let msg = signed("defer", "blocking", DeliveryMethod::Direct);
    let message_id = msg.message_id.unwrap();
    send(&mut router, msg);
    assert!(router.pending_deferred_stamps.contains_key(&message_id));

    let job = router.process_deferred_stamps(NOW, DeferredStampResult::Pending, true, no_stamp);
    assert!(job.is_some());
    assert!(router.active_deferred_stamp.is_some());

    let done = DeferredStampResult::Success { stamp: [5; 32], value: 1 };
    router.process_deferred_stamps(NOW, done, true, no_stamp);
    assert_eq!(router.pending_outbound.len(), 1);
    assert_eq!(router.pending_outbound[0].stamp.as_ref().map(Vec::len), Some(32));
}

#[test]
fn defer_stamp_queues_message_with_id() {
    let mut router = fresh();
    let mut msg = signed("d", "s", DeliveryMethod::Direct);
    msg.stamp_cost = Some(1);
    let id = msg.message_id.unwrap();

    assert!(router.defer_stamp(msg).is_none());
    assert!(router.pending_deferred_stamps.contains_key(&id));
}

#[test]
fn test_cancel_outbound_cancels_deferred_stamp_job() {
    let mut router = fresh();
    let dest = [0xAA; 16];
    router.set_stamp_cost(dest, 8, NOW);

    let msg = signed("cancel", "stamp", DeliveryMethod::Direct);
    let message_id = msg.message_id.unwrap();
    send(&mut router, msg);
    router.process_deferred_stamps(NOW, DeferredStampResult::Pending, true, no_stamp);

    assert!(router.active_deferred_stamp.is_some());
    assert!(router.cancel_outbound(&message_id));
    assert!(router.pending_deferred_stamps.is_empty());
    assert!(router.active_deferred_stamp.is_none());
}

#[test]
fn test_authentication_accessors() {
    let mut router = fresh();
    assert!(!router.requires_authentication());
    router.set_authentication(true);
    assert!(router.requires_authentication());
}

#[test]
fn test_retain_node_lxms_accessors() {
    let mut router = fresh();
    assert!(!router.retain_node_lxms());
    router.set_retain_node_lxms(true);
    assert!(router.retain_node_lxms());
}

#[test]
fn test_message_storage_limit_accessors() {
    let mut router = fresh();
    assert!(router.message_storage_limit().is_none());
    assert_eq!(router.message_storage_size(), 0);

    router.set_message_storage_limit(Some(1024 * 1024));
    assert_eq!(router.message_storage_limit(), Some(1024 * 1024));
}

#[test]
fn test_ticket_api() {
    let mut router = fresh();
    let dest = [0xAA; 16];

    assert!(router.get_outbound_ticket(&dest, NOW).is_none());
    assert!(router.get_outbound_ticket_expiry(&dest, NOW).is_none());
    assert!(router.get_inbound_tickets().is_empty());

    let token = router.generate_ticket(dest, None, NOW);
    assert_eq!(router.get_outbound_ticket(&dest, NOW), Some(token));
    assert!(router.get_outbound_ticket_expiry(&dest, NOW).unwrap() > NOW);
    assert_eq!(router.get_inbound_tickets().len(), 1);

    router.remember_ticket(dest, [0x55; 16], NOW + seconds(1000));
    assert_eq!(router.get_inbound_tickets().len(), 2);
}

#[test]
fn tickets_are_drawn_at_random() {
    let mut router = fresh();
    let first = router.generate_ticket([0xAA; 16], None, NOW);
    let second = router.generate_ticket([0xAA; 16], None, NOW);
    assert_ne!(first, [0; 16]);
    assert_ne!(first, second);
}

#[test]
fn test_validate_stamp_checks_all_tickets() {
    let mut router = fresh();
    let dest = [0xAA; 16];
    let expires = NOW + seconds(1000);
    router.remember_ticket(dest, [0x01; 16], expires);
    router.remember_ticket(dest, [0x02; 16], expires);

    let message_id = [0x33u8; 32];
    let mut material = Vec::with_capacity(16 + 32);
    material.extend_from_slice(&[0x02; 16]);
    material.extend_from_slice(&message_id);
    let stamp = truncated_hash(&material);

    assert!(router.validate_stamp_with_tickets(&message_id, &stamp, 16, &dest, NOW, no_proof));
    assert!(!router.validate_stamp_with_tickets(
        &message_id,
        &stamp,
        16,
        &dest,
        expires + SECOND,
        no_proof
    ));
}

#[test]
fn test_validate_stamp() {
    let router = fresh();
    let msg_id = [0x44; 32];
    let stamp = [0x55; 32];
    let accept = |id: &[u8; 32], s: &[u8; 32], cost: u8| {
        assert_eq!(*id, [0x44; 32]);
        assert_eq!(*s, [0x55; 32]);
        cost == 4
    };
    assert!(router.validate_stamp_with_tickets(&msg_id, &stamp, 4, &[0xAA; 16], NOW, accept));
    assert!(!router.validate_stamp_with_tickets(&msg_id, &stamp, 5, &[0xAA; 16], NOW, accept));
    assert!(!router.validate_stamp_with_tickets(&msg_id, &[1; 8], 4, &[0xAA; 16], NOW, accept));
}

#[test]
fn test_cancel_outbound() {
    let mut router = fresh();
    let mut msg = message("t", "c", DeliveryMethod::Direct);
    msg.state = MessageState::Outbound;
    let hash = [0x11u8; 32];
    msg.hash = Some(hash);
    router.pending_outbound.push(msg);

    assert!(router.cancel_outbound(&hash));
    assert!(router.pending_outbound.is_empty());
    assert!(!router.cancel_outbound(&hash));
}

#[test]
fn test_get_outbound_progress() {
    let mut router = fresh();
    let mut msg = message("t", "c", DeliveryMethod::Direct);
    msg.progress = 420_000;
    let hash = [0x22u8; 32];
    msg.hash = Some(hash);
    router.pending_outbound.push(msg);

    assert_eq!(router.get_outbound_progress(&hash), Some(420_000));
    assert_eq!(router.get_outbound_progress(&[0u8; 32]), None);
}

#[test]
fn test_sync_peers_picks_due_peers() {
    let mut router = fresh();

    let mut peer_due = LxmPeer::new([0x01; 16]);
    peer_due.add_unhandled_message();
    router.add_peer(peer_due);

    let peer_idle_no_msgs = LxmPeer::new([0x02; 16]);
    router.add_peer(peer_idle_no_msgs);

    let mut peer_in_flight = LxmPeer::new([0x03; 16]);
    peer_in_flight.add_unhandled_message();
    peer_in_flight.begin_sync(NOW);
    router.add_peer(peer_in_flight);

    let due = router.sync_peers(NOW);
    assert_eq!(due, vec![[0x01; 16]]);

    assert!(router.sync_peers(NOW).is_empty());
}

#[test]
fn test_send_message() {
    let mut router = fresh();
    send(&mut router, message("Test", "Content", DeliveryMethod::Direct));
    assert_eq!(router.pending_outbound.len(), 1);
    assert_eq!(router.pending_outbound[0].state, MessageState::Outbound);
}

#[test]
fn test_try_send_propagated_without_node_fails_immediately() {
    let mut router = fresh();
    let msg = message("Propagated", "Content", DeliveryMethod::Propagated);

    let err = router.try_send(msg, NOW, no_stamp).unwrap_err();
    assert!(matches!(err, SendError::MissingOutboundPropagationNode(_)));
    assert_eq!(err.message().state, MessageState::Failed);
    assert!(!err.describe().is_empty());
    assert!(router.pending_outbound.is_empty());
}

#[test]
fn test_process_outbound_fails_only_above_max_attempts() {
    let mut router = fresh();
    let mut msg = message("Test", "Content", DeliveryMethod::Direct);
    msg.delivery_attempts = MAX_DELIVERY_ATTEMPTS + 1;
    send(&mut router, msg);

    let actions = router.process_outbound(NOW);
    assert_eq!(actions.len(), 1);
    assert!(matches!(actions[0], OutboundAction::Failed(_)));
    assert!(router.pending_outbound.is_empty());
}

#[test]
fn test_process_outbound_at_max_attempts_not_failed() {
    let mut router = fresh();
    let mut msg = message("Test", "Content", DeliveryMethod::Direct);
    msg.delivery_attempts = MAX_DELIVERY_ATTEMPTS;
    send(&mut router, msg);

    let actions = router.process_outbound(NOW);
    assert_eq!(actions.len(), 1);
    assert!(
        !matches!(actions[0], OutboundAction::Failed(_)),
        "at exactly MAX the message is still attempted, not failed"
    );
}

#[test]
fn test_stats() {
    let router = fresh();
    let stats = router.stats();
    assert_eq!(stats.pending_outbound, 0);
    assert_eq!(stats.peers, 0);
    assert_eq!(stats.propagation_entries, 0);
}

#[test]
fn test_allow_control() {
    let mut router = fresh();
    let hash = [0xCC; 16];

    router.allow_control(hash);
    assert!(router.is_control_allowed(&hash));
    assert!(!router.is_control_allowed(&[0xDD; 16]));

    router.disallow_control(&hash);
    assert!(!router.is_control_allowed(&hash));
}

#[test]
fn test_process_outbound_direct_delivery() {
    let mut router = fresh();
    send(&mut router, message("Direct", "Content", DeliveryMethod::Direct));

    let actions = router.process_outbound(NOW);
    let has_direct = actions.iter().any(|a| matches!(a, OutboundAction::DeliverDirect { .. }));
    assert!(has_direct);
}

#[test]
fn test_process_outbound_propagated_delivery() {
    let mut router = fresh();
    let peer_hash = [0x11; 16];
    let peer = LxmPeer::new(peer_hash);
    router.add_peer(peer);
    router.set_outbound_propagation_node(Some(peer_hash));

    send(&mut router, message("Propagated", "Content", DeliveryMethod::Propagated));

    let actions = router.process_outbound(NOW);
    let has_propagated =
        actions.iter().any(|a| matches!(a, OutboundAction::DeliverPropagated { .. }));
    assert!(has_propagated);
}

#[test]
fn test_process_outbound_opportunistic_delivery() {
    let mut router = fresh();
    send(&mut router, message("Opportunistic", "Content", DeliveryMethod::Opportunistic));

    let actions = router.process_outbound(NOW);
    let has_opportunistic =
        actions.iter().any(|a| matches!(a, OutboundAction::DeliverOpportunistic { .. }));
    assert!(has_opportunistic);
}

#[test]
fn test_process_outbound_propagated_no_node() {
    let mut router = fresh();
    send(&mut router, message("Propagated", "Content", DeliveryMethod::Propagated));

    assert!(
        router.pending_outbound.is_empty(),
        "propagated messages without an outbound node fail at queue time"
    );
}

#[test]
fn test_delivery_announce_trigger_clears_direct_retry_backoff() {
    let mut router = fresh();
    let dest = [0xAA; 16];
    let mut msg = message("Direct", "Content", DeliveryMethod::Direct);
    msg.delivery_attempts = 1;
    msg.last_delivery_attempt = NOW;
    msg.next_delivery_attempt = NOW + seconds(PATH_REQUEST_WAIT);
    send(&mut router, msg);

    assert!(router.process_outbound(NOW).is_empty());
    assert_eq!(router.trigger_outbound_for_delivery_announce(dest, NOW), 1);
    assert!(matches!(
        router.process_outbound(NOW).as_slice(),
        [OutboundAction::DeliverDirect { .. }]
    ));
}

#[test]
fn test_delivery_announce_trigger_clears_propagated_recipient_backoff() {
    let mut router = fresh();
    let dest = [0xAA; 16];
    let node = [0xCC; 16];
    router.set_outbound_propagation_node(Some(node));
    let mut msg = message("Propagated", "Content", DeliveryMethod::Propagated);
    msg.delivery_attempts = 1;
    msg.last_delivery_attempt = NOW;
    msg.next_delivery_attempt = NOW + seconds(PATH_REQUEST_WAIT);
    send(&mut router, msg);

    assert!(router.process_outbound(NOW).is_empty());
    assert_eq!(router.trigger_outbound_for_delivery_announce(dest, NOW), 1);
    assert!(matches!(
        router.process_outbound(NOW).as_slice(),
        [OutboundAction::DeliverPropagated { .. }]
    ));
}

#[test]
fn test_propagation_node_announce_trigger_clears_propagated_retry_backoff() {
    let mut router = fresh();
    let node = [0xCC; 16];
    router.set_outbound_propagation_node(Some(node));
    let mut msg = message("Propagated", "Content", DeliveryMethod::Propagated);
    msg.delivery_attempts = 1;
    msg.last_delivery_attempt = NOW;
    msg.next_delivery_attempt = NOW + seconds(PATH_REQUEST_WAIT);
    send(&mut router, msg);

    assert!(router.process_outbound(NOW).is_empty());

    assert_eq!(router.trigger_outbound_for_propagation_node_announce(node, true, NOW), 1);
    assert!(matches!(
        router.process_outbound(NOW).as_slice(),
        [OutboundAction::DeliverPropagated { .. }]
    ));
}

#[test]
fn test_propagation_node_announce_trigger_requires_configured_valid_node() {
    let mut router = fresh();
    let node = [0xCC; 16];
    router.set_outbound_propagation_node(Some(node));
    send(&mut router, message("Propagated", "Content", DeliveryMethod::Propagated));

    assert_eq!(router.trigger_outbound_for_propagation_node_announce([0xDD; 16], false, NOW), 0);
    assert_eq!(router.trigger_outbound_for_propagation_node_announce([0xDD; 16], true, NOW), 0);
    assert_eq!(router.trigger_outbound_for_propagation_node_announce(node, false, NOW), 0);
}

#[test]
fn test_process_outbound_expired_message_marked_failed() {
    let mut router = fresh();
    let mut msg = message("Stale", "Content", DeliveryMethod::Direct);
    msg.timestamp = at(NOW - seconds(MESSAGE_EXPIRY) - seconds(60));
    send(&mut router, msg);

    let actions = router.process_outbound(NOW);
    assert_eq!(actions.len(), 1);
    assert!(
        matches!(&actions[0], OutboundAction::Expired(m) if m.state == MessageState::Failed),
        "expired message surfaces as Expired with state=Failed, got {:?}",
        actions[0]
    );
    assert!(router.pending_outbound.is_empty(), "expired message removed from queue");
}

#[test]
fn test_process_outbound_retry_backoff_defers_within_window() {
    let mut router = fresh();
    let mut msg = message("Backoff", "Content", DeliveryMethod::Direct);
    msg.delivery_attempts = 1;
    msg.last_delivery_attempt = NOW - SECOND;
    send(&mut router, msg);

    let actions = router.process_outbound(NOW);
    assert!(actions.is_empty(), "inside retry-wait window: no action emitted, got {:?}", actions);
    assert_eq!(router.pending_outbound.len(), 1, "message stays queued for the next tick");
}

#[test]
fn test_process_outbound_retry_backoff_uses_last_attempt_timestamp() {
    let mut router = fresh();
    let mut msg = message("Backoff", "Content", DeliveryMethod::Propagated);
    msg.last_delivery_attempt = NOW - SECOND;
    router.set_outbound_propagation_node(Some([0xCC; 16]));
    send(&mut router, msg);

    let actions = router.process_outbound(NOW);
    assert!(actions.is_empty(), "metadata waits should stay queued inside retry-wait window");
    assert_eq!(router.pending_outbound.len(), 1);
    assert_eq!(router.pending_outbound[0].delivery_attempts, 0);
}

#[test]
fn test_process_outbound_direct_transitions_to_sending() {
    let mut router = fresh();
    send(&mut router, message("Direct", "Content", DeliveryMethod::Direct));

    let actions = router.process_outbound(NOW);
    assert_eq!(actions.len(), 1);
    match &actions[0] {
        OutboundAction::DeliverDirect { message, .. } => {
            assert_eq!(
                message.state,
                MessageState::Sending,
                "Direct message enters Sending on dequeue"
            );
        }
        other => panic!("expected DeliverDirect, got {:?}", other),
    }
}

#[test]
fn test_tick_sends_to_transport() {
    let mut router = fresh();
    let msg = signed("Tick Test", "Content", DeliveryMethod::Opportunistic);
    let expected = msg.pack().unwrap()[DESTINATION_LENGTH..].to_vec();
    send(&mut router, msg);

    let (_, _, packets) = router.tick_with_encryptor(
        NOW,
        DeferredStampResult::Pending,
        false,
        no_stamp,
        |_dest: [u8; 16], plaintext: &[u8]| Ok(plaintext.to_vec()),
    );

    assert_eq!(packets, vec![([0xAA; 16], expected)]);
}

#[test]
fn test_execute_actions_no_transport() {
    let router = fresh();
    let actions = vec![OutboundAction::DeliverDirect {
        message: LxMessage::new([0; 16], [0; 16], "t", "c", DeliveryMethod::Direct, at(NOW)),
        dest_hash: [0; 16],
    }];
    let packets = router.execute_actions_with_encryptor(&actions, |_d: [u8; 16], p: &[u8]| {
        Ok(p.to_vec())
    });
    assert!(packets.is_empty());
}

#[test]
fn test_execute_actions_only_sends_opportunistic_packet_payload_shape() {
    let dest_hash = [0xAA; 16];
    let router = fresh();

    let direct = signed("Direct", "d", DeliveryMethod::Direct);
    let opportunistic = signed("Opp", "o", DeliveryMethod::Opportunistic);
    let opportunistic_packed = opportunistic.pack().unwrap();

    let actions = vec![
        OutboundAction::DeliverDirect { message: direct, dest_hash },
        OutboundAction::DeliverOpportunistic { message: opportunistic, dest_hash },
    ];
    let packets =
        router.execute_actions_with_encryptor(&actions, |_dest: [u8; 16], plaintext: &[u8]| {
            let mut out = vec![0xEE];
            out.extend_from_slice(plaintext);
            Ok(out)
        });

    assert_eq!(packets.len(), 1);
    assert_eq!(packets[0].0, dest_hash);
    assert_eq!(packets[0].1, [&[0xEE], &opportunistic_packed[DESTINATION_LENGTH..]].concat());
}

#[test]
fn test_execute_actions_without_encryptor_does_not_send_opportunistic_plaintext() {
    let dest_hash = [0xAA; 16];
    let router = fresh();
    let direct = signed("Direct", "d", DeliveryMethod::Direct);
    let opportunistic = signed("Opp", "o", DeliveryMethod::Opportunistic);
    let actions = vec![
        OutboundAction::DeliverDirect { message: direct, dest_hash },
        OutboundAction::DeliverOpportunistic { message: opportunistic, dest_hash },
    ];
    let packets = router.execute_actions_with_encryptor(&actions, |_d: [u8; 16], _p: &[u8]| {
        Err(MessageError::PackFailed("no encryptor".to_string()))
    });
    assert!(packets.is_empty());
}

#[test]
fn test_ignore_destination() {
    let mut router = fresh();
    let dest = [0xAA; 16];

    router.ignore_destination(dest);
    assert!(router.ignored.contains(&dest));
    assert!(router.propagation_store.is_destination_ignored(&dest));

    router.unignore_destination(&dest);
    assert!(!router.ignored.contains(&dest));
    assert!(!router.propagation_store.is_destination_ignored(&dest));
}

fn candidate(destination: u8) -> AutopeerCandidate {
    AutopeerCandidate {
        destination_hash: [destination; 16],
        timebase: 1000.0f64.to_bits(),
        transfer_limit: None,
        sync_limit: None,
        stamp_cost: None,
        stamp_flexibility: None,
        peering_cost: None,
        hops: None,
    }
}

#[test]
fn test_autopeer() {
    let mut router = fresh();
    assert!(router.autopeer(AutopeerCandidate {
        transfer_limit: Some(256.0f64.to_bits()),
        sync_limit: Some(10240.0f64.to_bits()),
        stamp_cost: Some(16),
        stamp_flexibility: Some(3),
        peering_cost: Some(18),
        hops: Some(2),
        ..candidate(0xAA)
    }));
    assert_eq!(router.peers.len(), 1);

    assert!(!router.autopeer(candidate(0xAA)));
    assert!(!router.autopeer(AutopeerCandidate { hops: Some(10), ..candidate(0xBB) }));
}

#[test]
fn test_autopeer_enforces_max_peering_cost() {
    let mut router = fresh();
    let max = router.config.ext.max_peering_cost;

    let costing = |cost: Option<u8>| AutopeerCandidate {
        transfer_limit: Some(256.0f64.to_bits()),
        stamp_cost: Some(16),
        stamp_flexibility: Some(3),
        peering_cost: cost,
        hops: Some(2),
        ..candidate(0xAA)
    };

    assert!(!router.autopeer(costing(Some(max + 1))));
    assert!(router.peers.is_empty());

    assert!(router.autopeer(costing(Some(max))));
    assert_eq!(router.peers.len(), 1);

    assert!(!router.autopeer(costing(Some(max + 1))));
    assert!(router.peers.is_empty(), "over-cost announce must unpeer");
}

#[test]
fn test_autopeer_respects_configured_maxdepth() {
    let mut router = LxmRouter::new(RouterConfig {
        ext: RouterConfigExt { autopeer_maxdepth: 1, ..Default::default() },
        ..Default::default()
    });

    assert!(!router.autopeer(AutopeerCandidate { hops: Some(2), ..candidate(0xAA) }));
    assert!(router.autopeer(AutopeerCandidate { hops: Some(1), ..candidate(0xBB) }));
}

#[test]
fn test_resource_concluded() {
    let mut router = fresh();
    let peer_hash = [0xAA; 16];
    let mut peer = LxmPeer::new(peer_hash);
    peer.currently_transferring_messages = Some(vec![[0x01; 32], [0x02; 32]]);
    peer.state = PeerState::ResourceTransferring;
    router.add_peer(peer);

    router.handle_resource_concluded(&peer_hash, true, NOW);

    let peer = router.peers.get(&peer_hash).unwrap();
    assert_eq!(peer.state, PeerState::Idle);
    assert_eq!(peer.outgoing, 2);
    assert!(peer.currently_transferring_messages.is_none());
}

#[test]
fn test_control_status() {
    let config = RouterConfig { propagation_enabled: true, ..Default::default() };
    let mut router = LxmRouter::new(config);
    router.propagation_start_time = Some(NOW);

    let stats = router.control_status_at(NOW);
    assert!(stats.is_some());
    let stats = stats.unwrap();
    assert_eq!(stats.total_peers, 0);
    assert_eq!(stats.message_count, 0);

    assert!(fresh().control_status_at(NOW).is_none());
}

#[test]
fn test_processing_limit() {
    let mut config = RouterConfig::default();
    config.ext.processing_limit = Some(1);
    let mut router = LxmRouter::new(config);

    send(
        &mut router,
        LxMessage::new([0x01; 16], [0; 16], "a", "b", DeliveryMethod::Direct, at(NOW)),
    );
    send(
        &mut router,
        LxMessage::new([0x02; 16], [0; 16], "c", "d", DeliveryMethod::Direct, at(NOW)),
    );

    let actions = router.process_outbound(NOW);
    assert_eq!(actions.len(), 1);
    assert_eq!(router.pending_outbound.len(), 1);
}

#[test]
fn test_throttle_peer() {
    let mut router = fresh();
    let hash = [0xAA; 16];

    assert!(!router.is_peer_throttled(&hash, NOW));
    router.throttle_peer(hash, NOW);
    assert!(router.is_peer_throttled(&hash, NOW));
}

#[test]
fn throttling_ends() {
    let mut router = fresh();
    let hash = [0xAA; 16];
    router.throttle_peer(hash, NOW);
    let later = NOW + seconds(3600);
    assert!(!router.is_peer_throttled(&hash, later));
    router.clean_throttled_peers(NOW);
    assert!(router.is_peer_throttled(&hash, NOW));
    router.clean_throttled_peers(later);
    assert!(router.throttled_peers.is_empty());
    assert!(!router.unthrottle_peer(&hash));
}

#[test]
fn test_opportunistic_fallback_to_direct() {
    let mut router = fresh();
    let large_content = "x".repeat(500);
    send(&mut router, message("Large", &large_content, DeliveryMethod::Opportunistic));

    assert_eq!(router.pending_outbound[0].method, DeliveryMethod::Direct);
}

#[test]
fn test_direct_message_state_sending() {
    let mut router = fresh();
    send(&mut router, message("Direct", "Content", DeliveryMethod::Direct));

    let actions = router.process_outbound(NOW);
    assert_eq!(actions.len(), 1);
    match &actions[0] {
        OutboundAction::DeliverDirect { message, .. } => {
            assert_eq!(message.state, MessageState::Sending);
        }
        _ => panic!("expected DeliverDirect"),
    }
}

#[test]
fn test_propagated_message_state_sending() {
    let mut router = fresh();
    let peer_hash = [0x11; 16];
    let peer = LxmPeer::new(peer_hash);
    router.add_peer(peer);
    router.set_outbound_propagation_node(Some(peer_hash));

    send(&mut router, message("Propagated", "Content", DeliveryMethod::Propagated));

    let actions = router.process_outbound(NOW);
    assert_eq!(actions.len(), 1);
    match &actions[0] {
        OutboundAction::DeliverPropagated { message, .. } => {
            assert_eq!(message.state, MessageState::Sending);
        }
        _ => panic!("expected DeliverPropagated"),
    }
}

#[test]
fn test_opportunistic_message_state_sent() {
    let mut router = fresh();
    send(&mut router, message("Opportunistic", "Content", DeliveryMethod::Opportunistic));

    let actions = router.process_outbound(NOW);
    assert_eq!(actions.len(), 1);
    match &actions[0] {
        OutboundAction::DeliverOpportunistic { message, .. } => {
            assert_eq!(message.state, MessageState::Sent);
            assert_eq!(message.progress, 500_000);
        }
        _ => panic!("expected DeliverOpportunistic"),
    }
}

#[test]
fn test_direct_message_left_for_link_delivery_after_execute() {
    let mut router = fresh();
    let msg = signed("Direct Sent", "Content", DeliveryMethod::Direct);
    send(&mut router, msg);

    let (job, actions) = router.tick(NOW, DeferredStampResult::Pending, false, no_stamp);

    assert!(job.is_none());
    assert!(actions.is_empty(), "direct delivery takes a link");
    assert_eq!(router.pending_outbound.len(), 1, "direct messages stay queued");
    assert_eq!(router.pending_outbound[0].state, MessageState::Outbound);
}

#[test]
fn announced_data_follows_the_configuration() {
    let mut config = RouterConfig { propagation_enabled: true, ..Default::default() };
    config.ext.name = Some("node \u{e9}".to_string());
    let router = LxmRouter::new(config);
    let data = router.get_propagation_node_app_data(1_700_000_000);
    assert!(!data.legacy);
    assert!(data.node_state);
    assert_eq!(data.timebase, 1_700_000_000);
    assert_eq!(data.transfer_limit, 256);
    assert_eq!(data.sync_limit, 10240);
    assert_eq!(data.stamp_cost, 16);
    assert_eq!(data.stamp_flex, 3);
    assert_eq!(data.peering_cost, 18);
    assert_eq!(data.metadata, vec![(0, "node \u{e9}".as_bytes().to_vec())]);
    assert!(!fresh().get_propagation_node_app_data(0).node_state);
}

#[test]
fn peers_survive_a_checkpoint() {
    let mut router = durable(MemoryStorage::new());
    let mut peer = LxmPeer::new([0x21; 16]);
    peer.add_handled_message(&[0x31; 32]);
    peer.offered = 12;
    router.add_peer(peer);
    router.checkpoint_peers().unwrap();

    let mut restarted = durable(router.storage);
    assert_eq!(restarted.load_persisted_peers(), 1);
    let loaded = restarted.peers.get(&[0x21; 16]).unwrap();
    assert_eq!(loaded.offered, 12);
    assert_eq!(loaded.handled_messages, vec![[0x31; 32]]);
}

#[test]
fn records_are_read_back() {
    let mut router = fresh();
    router.remember_identity([0x01; 16], [0x02; 64], NOW).unwrap();
    assert_eq!(router.identity(&[0x01; 16]), Some([0x02; 64]));
    assert_eq!(router.identity(&[0x09; 16]), None);
    router.put_state_blob("ring", &[1, 2, 3]).unwrap();
    assert_eq!(router.state_blob("ring"), Some(vec![1, 2, 3]));
    assert_eq!(router.state_blob("other"), None);
    router.put_state_blobs(&vec![("ring", &[9][..]), ("control", &[8, 7][..])]).unwrap();
    assert_eq!(router.state_blob("ring"), Some(vec![9]));
    assert_eq!(router.state_blob("control"), Some(vec![8, 7]));
    router.store_inbound_message([0x03; 32], &[4], NOW).unwrap();
    assert!(router.contains_inbound_message(&[0x03; 32]));
    assert!(!router.contains_inbound_message(&[0x04; 32]));
}

#[test]
fn old_messages_are_flushed_though_a_retry_is_due_later() {
    let mut router = fresh();
    let mut old = signed("old", "message", DeliveryMethod::Direct);
    old.state = MessageState::Outbound;
    old.timestamp = at(NOW - seconds(MESSAGE_EXPIRY) - SECOND);
    old.next_delivery_attempt = NOW + seconds(3_600);
    router.pending_outbound.push(old);
    let mut waiting = signed("young", "message", DeliveryMethod::Direct);
    waiting.state = MessageState::Outbound;
    waiting.next_delivery_attempt = NOW + seconds(3_600);
    router.pending_outbound.push(waiting);

    let actions = router.process_outbound(NOW);
    let [OutboundAction::Expired(expired)] = actions.as_slice() else {
        panic!("unexpected actions: {actions:?}");
    };
    assert_eq!(expired.title, "old");
    assert_eq!(expired.state, MessageState::Failed);
    assert_eq!(router.pending_outbound.len(), 1);
    assert_eq!(router.pending_outbound[0].title, "young");
    let notices = router.take_notices();
    assert_eq!(notices.len(), 1);
    assert!(!notices[0].delivered);
}

#[test]
fn only_messages_under_way_can_be_cancelled() {
    let hash = [0x12u8; 32];
    for (state, cancellable) in [
        (MessageState::Generating, false),
        (MessageState::Outbound, true),
        (MessageState::Sending, true),
        (MessageState::Sent, false),
        (MessageState::Delivered, false),
        (MessageState::Failed, false),
    ] {
        let mut router = fresh();
        let mut msg = message("t", "c", DeliveryMethod::Direct);
        msg.state = state;
        msg.hash = Some(hash);
        router.pending_outbound.push(msg);
        assert_eq!(router.cancel_outbound(&hash), cancellable);
        assert_eq!(router.pending_outbound.is_empty(), cancellable);
    }
}

#[test]
fn sent_messages_stay_where_they_wait_for_a_stamp_or_are_stored() {
    let mut router = fresh();
    let mut waiting = signed("waits", "for a stamp", DeliveryMethod::Direct);
    waiting.state = MessageState::Sent;
    let id = waiting.message_id.unwrap();
    router.pending_deferred_stamps.insert(id, waiting);
    assert!(!router.cancel_outbound(&id));
    assert!(router.pending_deferred_stamps.contains_key(&id));

    let mut router = durable(MemoryStorage::new());
    let mut stored = durable_outbound_message(DeliveryMethod::Direct);
    stored.next_delivery_attempt = NOW + seconds(3_600);
    let id = stored.message_id.unwrap();
    send(&mut router, stored);
    let mut kept = router.storage.outbound_message(&id).unwrap().unwrap();
    let outbound = kept.metadata.state;
    kept.metadata.state = 0x04;
    router.storage.update_outbound_delivery(&kept.metadata).unwrap();
    assert!(!router.cancel_outbound(&id));
    assert_eq!(router.stats().pending_outbound, 1);
    kept.metadata.state = outbound;
    router.storage.update_outbound_delivery(&kept.metadata).unwrap();
    assert!(router.cancel_outbound(&id));
    assert_eq!(router.stats().pending_outbound, 0);
}

#[test]
fn queued_messages_come_back_from_storage_with_fields_and_stamps() {
    let mut router = durable(MemoryStorage::new());
    let mut sent = durable_outbound_message(DeliveryMethod::Direct);
    sent.set_field(0x09, vec![1, 2, 3]);
    sent.stamp = Some(vec![0x44; 32]);
    sent.sign(&KEY).unwrap();
    sent.propagation_stamp = Some([0x55; 32]);
    sent.ratchet_id = Some([0x66; 32]);
    sent.auto_compress = false;
    sent.transport_encrypted = true;
    sent.transport_encryption = Some("Curve25519".to_string());
    send(&mut router, sent);
    assert!(router.pending_outbound.is_empty());

    let mut router = durable(router.storage);
    let actions = router.process_outbound(NOW);
    let OutboundAction::DeliverDirect { message, .. } = &actions[0] else {
        panic!("unexpected actions: {actions:?}");
    };
    assert_eq!(message.get_field(0x09), Some(&vec![1, 2, 3]));
    assert_eq!(message.stamp, Some(vec![0x44; 32]));
    assert_eq!(message.propagation_stamp, Some([0x55; 32]));
    assert_eq!(message.ratchet_id, Some([0x66; 32]));
    assert!(!message.auto_compress);
    assert!(message.transport_encrypted);
    assert_eq!(message.transport_encryption.as_deref(), Some("Curve25519"));
}
