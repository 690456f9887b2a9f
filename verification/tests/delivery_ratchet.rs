//! Announcing a delivery destination with a ratchet.

use lxmf_core::delivery_ratchet::{
    plan_load, AnnounceAction, AnnounceEvent, ControlFile, DeliveryAnnounceKind,
    DeliveryRatchetError, DeliveryRatchetState, RingFile,
};

const FIRST: [u8; 32] = [1; 32];
const SECOND: [u8; 32] = [2; 32];

fn fresh_state() -> DeliveryRatchetState {
    let plan = plan_load(true, RingFile::Missing, ControlFile::Missing).unwrap();
    assert!(plan.initialise_ring);
    let (state, finish) = DeliveryRatchetState::finish_load(&plan, Some(FIRST));
    assert!(finish.commit_ring);
    assert!(finish.save_control);
    state
}

fn begin(state: &mut DeliveryRatchetState) -> AnnounceAction {
    state.create_announce(DeliveryAnnounceKind::Broadcast, true, true)
}

fn announce(state: &mut DeliveryRatchetState, wire: u64, rotation_due: bool) -> AnnounceAction {
    assert!(matches!(begin(state), AnnounceAction::Prepare));
    let next = state.step(AnnounceEvent::Prepared { wire: Some(wire), rotation_due });
    if rotation_due {
        assert!(matches!(next, AnnounceAction::SaveRing));
        state.step(AnnounceEvent::RingSaved { public_key: SECOND });
    }
    state.step(AnnounceEvent::ControlSaved)
}

#[test]
fn signed_database_blobs_restore_ring_and_control_state() {
    let mut state = fresh_state();
    announce(&mut state, 101, false);

    let plan = plan_load(
        true,
        RingFile::Verified { legacy: false, current: state.current },
        ControlFile::Verified {
            rotation_known: true,
            last_announce_wire: state.last_announce_wire,
        },
    )
    .unwrap();
    assert!(!plan.initialise_ring);
    assert!(!plan.rewrite_ring);
    let (restored, finish) = DeliveryRatchetState::finish_load(&plan, None);
    assert_eq!(restored.current, Some(FIRST));
    assert_eq!(restored.last_announce_wire, Some(101));
    assert!(!finish.save_control);
}

#[test]
fn survives_restart_rotates_and_retains_the_previous_private_key() {
    let mut state = fresh_state();
    match announce(&mut state, 101, false) {
        AnnounceAction::Publish { ratchet, wire, commit_rotation } => {
            assert_eq!(ratchet, Some(FIRST));
            assert_eq!(wire, 101);
            assert!(!commit_rotation);
        }
        other => panic!("expected an announcement, got {other:?}"),
    }
    assert!(matches!(begin(&mut state), AnnounceAction::Prepare));
    assert!(matches!(
        state.step(AnnounceEvent::Coalesced),
        AnnounceAction::Fail(DeliveryRatchetError::Coalesced)
    ));
    assert_eq!(state.last_announce_wire, Some(101));

    match announce(&mut state, 200, true) {
        AnnounceAction::Publish { ratchet, commit_rotation, .. } => {
            assert_eq!(ratchet, Some(SECOND));
            assert!(commit_rotation);
        }
        other => panic!("expected an announcement, got {other:?}"),
    }
    assert_eq!(state.current, Some(SECOND));
}

#[test]
fn unavailable_ring_storage_can_only_emit_an_unratcheted_announce() {
    let plan = plan_load(true, RingFile::Missing, ControlFile::Missing).unwrap();
    let (mut state, finish) = DeliveryRatchetState::finish_load(&plan, None);
    assert!(!finish.commit_ring);
    assert_eq!(state.current, None);

    assert!(matches!(begin(&mut state), AnnounceAction::Prepare));
    let next = state.step(AnnounceEvent::Prepared { wire: Some(101), rotation_due: false });
    assert!(matches!(next, AnnounceAction::SaveRing));
    assert!(matches!(
        state.step(AnnounceEvent::RingNotSaved),
        AnnounceAction::SaveControl { record_rotation: false }
    ));
    assert!(matches!(
        state.step(AnnounceEvent::ControlSaved),
        AnnounceAction::Publish { ratchet: None, wire: 101, commit_rotation: false }
    ));
    assert_eq!(state.current, None);
}

#[test]
fn corrupt_ring_is_preserved_and_never_advertised() {
    let plan = plan_load(true, RingFile::Untrusted, ControlFile::Missing).unwrap();
    assert!(!plan.rewrite_ring);
    assert!(!plan.initialise_ring);
    let (mut state, finish) = DeliveryRatchetState::finish_load(&plan, None);
    assert!(!finish.commit_ring);

    assert!(matches!(begin(&mut state), AnnounceAction::Prepare));
    assert!(matches!(
        state.step(AnnounceEvent::Prepared { wire: Some(101), rotation_due: true }),
        AnnounceAction::SaveControl { record_rotation: false }
    ));
    assert!(matches!(
        state.step(AnnounceEvent::ControlSaved),
        AnnounceAction::Publish { ratchet: None, .. }
    ));
    let (save_ring, save_control) = state.shutdown_saves();
    assert!(!save_ring);
    assert!(save_control);
}

#[test]
fn failed_control_commit_cannot_publish_or_commit_a_prepared_rotation() {
    let mut state = fresh_state();
    announce(&mut state, 101, false);
    let live_public = state.current;
    let live_wire_time = state.last_announce_wire;

    assert!(matches!(begin(&mut state), AnnounceAction::Prepare));
    state.step(AnnounceEvent::Prepared { wire: Some(200), rotation_due: true });
    state.step(AnnounceEvent::RingSaved { public_key: SECOND });
    assert!(matches!(
        state.step(AnnounceEvent::ControlNotSaved),
        AnnounceAction::Fail(DeliveryRatchetError::PersistControl)
    ));
    assert_eq!(state.current, live_public);
    assert_eq!(state.last_announce_wire, live_wire_time);
}

#[test]
fn same_tag_replays_exact_packet_without_consuming_announce_time() {
    let mut state = fresh_state();
    let tag = b"path-request-tag";
    let kind = DeliveryAnnounceKind::PathResponse { tag: Some(tag) };
    assert_eq!(kind.path_response(), (true, Some(&tag[..])));
    assert!(matches!(state.create_announce(kind, true, true), AnnounceAction::LookUpReply));
    assert!(matches!(state.step(AnnounceEvent::ReplyMissing), AnnounceAction::Prepare));
    state.step(AnnounceEvent::Prepared { wire: Some(101), rotation_due: false });
    state.step(AnnounceEvent::ControlSaved);
    let committed_wire = state.last_announce_wire;

    assert!(matches!(state.create_announce(kind, true, true), AnnounceAction::LookUpReply));
    assert!(matches!(state.step(AnnounceEvent::ReplyFound), AnnounceAction::Replay));
    assert_eq!(state.last_announce_wire, committed_wire);
}

#[test]
fn invalid_cache_clock_cannot_commit_announce_state() {
    let mut state = fresh_state();
    let live_wire = state.last_announce_wire;
    let live_public = state.current;

    assert!(matches!(
        state.create_announce(DeliveryAnnounceKind::Broadcast, true, false),
        AnnounceAction::Fail(DeliveryRatchetError::Destination)
    ));
    assert_eq!(state.last_announce_wire, live_wire);
    assert_eq!(state.current, live_public);
}

#[test]
fn each_refusal_has_its_reason() {
    assert!(matches!(
        plan_load(false, RingFile::Missing, ControlFile::Missing),
        Err(DeliveryRatchetError::DestinationMismatch)
    ));
    let mut state = fresh_state();
    assert!(matches!(
        state.create_announce(DeliveryAnnounceKind::Broadcast, false, true),
        AnnounceAction::Fail(DeliveryRatchetError::DestinationMismatch)
    ));
    let tagged = DeliveryAnnounceKind::PathResponse { tag: Some(&[1]) };
    assert!(matches!(state.create_announce(tagged, true, true), AnnounceAction::LookUpReply));
    assert!(matches!(
        state.step(AnnounceEvent::ReplyUnknown),
        AnnounceAction::Fail(DeliveryRatchetError::Destination)
    ));
    begin(&mut state);
    assert!(matches!(
        state.step(AnnounceEvent::PlanFailed),
        AnnounceAction::Fail(DeliveryRatchetError::Plan)
    ));
    begin(&mut state);
    state.step(AnnounceEvent::Prepared { wire: None, rotation_due: false });
    assert!(matches!(
        state.step(AnnounceEvent::ControlSaved),
        AnnounceAction::Fail(DeliveryRatchetError::Invariant)
    ));
    let plan = plan_load(true, RingFile::Missing, ControlFile::Untrusted).unwrap();
    let (mut untrusted, _) = DeliveryRatchetState::finish_load(&plan, None);
    assert!(matches!(
        begin(&mut untrusted),
        AnnounceAction::Fail(DeliveryRatchetError::UntrustedControl)
    ));
}
