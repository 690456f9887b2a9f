//! The ratchet of a delivery destination: which key an announcement may carry, and what has
//! to be stored before it is sent.
//!
//! Keys, files and packets are handled by the embedding program.  It performs one action
//! after the other and says how each went; an announcement is published only after
//! everything that it claims was stored.

use vstd::prelude::*;

verus! {

/// The aspect of a delivery destination.
pub const DELIVERY_APP_NAME: &'static str = "lxmf.delivery";

/// What is announced for: to all, or to answer a path request.
#[derive(Debug, Clone, Copy)]
pub enum DeliveryAnnounceKind<'a> {
    Broadcast,
    PathResponse { tag: Option<&'a [u8]> },
}

impl<'a> DeliveryAnnounceKind<'a> {
    /// Whether a path request is answered, and the tag that it had.
    pub fn path_response(&self) -> (r: (bool, Option<&'a [u8]>))
        ensures
            r == (match *self {
                DeliveryAnnounceKind::Broadcast => (false, None),
                DeliveryAnnounceKind::PathResponse { tag } => (true, tag),
            }),
    {
        match *self {
            DeliveryAnnounceKind::Broadcast => (false, None),
            DeliveryAnnounceKind::PathResponse { tag } => (true, tag),
        }
    }
}

/// Why there is no announcement.
#[derive(Debug, Clone, Copy, PartialEq, Eq, Structural)]
pub enum DeliveryRatchetError {
    /// The destination is another identity's.
    DestinationMismatch,
    /// The stored control state cannot be trusted, and is not overwritten.
    UntrustedControl,
    /// Another announcement was made at the same time.
    Coalesced,
    /// The time of the announcement could not be planned.
    Plan,
    /// The control state could not be stored.
    PersistControl,
    /// The destination refused the announcement.
    Destination,
    /// An announcement was prepared without a time.
    Invariant,
}

/// The stored keys.
#[derive(Debug, Clone, Copy)]
pub enum RingFile {
    Missing,
    /// The keys are genuine.  `current` is the public part of the latest.
    Verified { legacy: bool, current: Option<[u8; 32]> },
    Untrusted,
}

/// The stored control state.
#[derive(Debug, Clone, Copy)]
pub enum ControlFile {
    Missing,
    /// The state is genuine.
    Verified { rotation_known: bool, last_announce_wire: Option<u64> },
    Untrusted,
}

/// What has to be done to load a ratchet.
#[derive(Debug, Clone, Copy)]
pub struct LoadPlan {
    pub ring_file_trusted: bool,
    pub control_file_trusted: bool,
    pub current: Option<[u8; 32]>,
    pub last_announce_wire: Option<u64>,
    /// The keys are to be stored anew in their present form.
    pub rewrite_ring: bool,
    /// The time of loading is to be noted as that of the last rotation.
    pub anchor_rotation: bool,
    /// A first key is to be made and stored.
    pub initialise_ring: bool,
    /// The control state is stored already.
    pub control_existed: bool,
}

/// What is left to do once the first key was stored, or was not.
#[derive(Debug, Clone, Copy, PartialEq, Eq, Structural)]
pub struct LoadFinish {
    /// The first key becomes current, and its time that of the last rotation.
    pub commit_ring: bool,
    /// The control state is to be stored.
    pub save_control: bool,
}

/// The key that is current.
pub open spec fn current_key(ring: RingFile) -> Option<[u8; 32]> {
    match ring {
        RingFile::Verified { legacy, current } => current,
        _ => None,
    }
}

/// What has to be done to load a ratchet.  Files that cannot be trusted are left alone.
pub open spec fn load_plan(ring: RingFile, control: ControlFile) -> LoadPlan {
    let ring_file_trusted = !(ring is Untrusted);
    let control_file_trusted = !(control is Untrusted);
    LoadPlan {
        ring_file_trusted,
        control_file_trusted,
        current: current_key(ring),
        last_announce_wire: match control {
            ControlFile::Verified { rotation_known, last_announce_wire } => last_announce_wire,
            _ => None,
        },
        rewrite_ring: ring matches RingFile::Verified { legacy, current } && legacy,
        anchor_rotation: match control {
            ControlFile::Missing => true,
            ControlFile::Verified { rotation_known, last_announce_wire } => !rotation_known,
            ControlFile::Untrusted => false,
        },
        initialise_ring: current_key(ring) is None && ring_file_trusted && control_file_trusted,
        control_existed: !(control is Missing),
    }
}

/// Plans how a ratchet is loaded.
pub fn plan_load(destination_matches: bool, ring: RingFile, control: ControlFile) -> (r: Result<
    LoadPlan,
    DeliveryRatchetError,
>)
    ensures
        destination_matches ==> r == Ok::<LoadPlan, DeliveryRatchetError>(load_plan(ring, control)),
        !destination_matches ==> r == Err::<LoadPlan, DeliveryRatchetError>(
            DeliveryRatchetError::DestinationMismatch,
        ),
{
    if !destination_matches {
        return Err(DeliveryRatchetError::DestinationMismatch);
    }
    let (current, rewrite_ring, ring_file_trusted): (Option<[u8; 32]>, bool, bool) = match ring {
        RingFile::Missing => (None, false, true),
        RingFile::Verified { legacy, current } => (current, legacy, true),
        RingFile::Untrusted => (None, false, false),
    };
    let (last_announce_wire, anchor_rotation, control_file_trusted): (
        Option<u64>,
        bool,
        bool,
    ) = match control {
        ControlFile::Missing => (None, true, true),
        ControlFile::Verified { rotation_known, last_announce_wire } => (
            last_announce_wire,
            !rotation_known,
            true,
        ),
        ControlFile::Untrusted => (None, false, false),
    };
    Ok(
        LoadPlan {
            ring_file_trusted,
            control_file_trusted,
            current,
            last_announce_wire,
            rewrite_ring,
            anchor_rotation,
            initialise_ring: current.is_none() && ring_file_trusted && control_file_trusted,
            control_existed: !matches!(control, ControlFile::Missing),
        },
    )
}

/// Where the making of an announcement stands.
#[derive(Debug, Clone, Copy)]
pub enum AnnouncePhase {
    /// None is being made.
    Idle,
    /// It is looked up whether the path request was answered before.
    LookingUp,
    /// The time of the announcement is being planned.
    Preparing,
    /// A new key is being made and stored.
    SavingRing { wire: Option<u64> },
    /// The control state is being stored.
    SavingControl { wire: Option<u64>, rotated: Option<[u8; 32]> },
}

/// The ratchet of a delivery destination.
#[derive(Debug, Clone, Copy)]
pub struct DeliveryRatchetState {
    pub ring_file_trusted: bool,
    pub control_file_trusted: bool,
    /// The public part of the key in use.
    pub current: Option<[u8; 32]>,
    /// The time that the last announcement carries.
    pub last_announce_wire: Option<u64>,
    pub phase: AnnouncePhase,
}

/// What happened.
#[derive(Debug, Clone, Copy)]
pub enum AnnounceEvent {
    /// An announcement is wanted: an answer to a tagged path request where `tagged`.
    Start { identity_matches: bool, clock_valid: bool, tagged: bool },
    /// The path request was answered before.
    ReplyFound,
    ReplyMissing,
    /// It could not be looked up.
    ReplyUnknown,
    /// The time was planned.
    Prepared { wire: Option<u64>, rotation_due: bool },
    Coalesced,
    PlanFailed,
    /// A new key was stored; this is its public part.
    RingSaved { public_key: [u8; 32] },
    RingNotSaved,
    ControlSaved,
    ControlNotSaved,
}

/// What is to be done next.
#[derive(Debug, Clone, Copy)]
pub enum AnnounceAction {
    /// Look up whether the path request was answered before.
    LookUpReply,
    /// Send the earlier answer again.
    Replay,
    /// Plan the time of the announcement.
    Prepare,
    /// Make a new key and store it.
    SaveRing,
    /// Store the planned control state, with the rotation where there is one.
    SaveControl { record_rotation: bool },
    /// Take the new key into use where there is one, and send the announcement.
    Publish { ratchet: Option<[u8; 32]>, wire: u64, commit_rotation: bool },
    Fail(DeliveryRatchetError),
    /// Nothing: the event does not fit.
    Ignore,
}

/// A ratchet in another phase.
pub open spec fn in_phase(s: DeliveryRatchetState, phase: AnnouncePhase) -> DeliveryRatchetState {
    DeliveryRatchetState { phase, ..s }
}

/// A ratchet that gave up making an announcement.
pub open spec fn gives_up(
    s: DeliveryRatchetState,
    e: DeliveryRatchetError,
) -> (DeliveryRatchetState, AnnounceAction) {
    (in_phase(s, AnnouncePhase::Idle), AnnounceAction::Fail(e))
}

/// A ratchet that goes on to plan an announcement, where the control state can be trusted.
pub open spec fn goes_on(s: DeliveryRatchetState) -> (DeliveryRatchetState, AnnounceAction) {
    if s.control_file_trusted {
        (in_phase(s, AnnouncePhase::Preparing), AnnounceAction::Prepare)
    } else {
        gives_up(s, DeliveryRatchetError::UntrustedControl)
    }
}

/// A ratchet that stores the control state of an announcement.
pub open spec fn stores_control(
    s: DeliveryRatchetState,
    wire: Option<u64>,
    rotated: Option<[u8; 32]>,
) -> (DeliveryRatchetState, AnnounceAction) {
    (
        in_phase(s, AnnouncePhase::SavingControl { wire, rotated }),
        AnnounceAction::SaveControl { record_rotation: rotated is Some },
    )
}

/// The key that an announcement carries.
pub open spec fn carried(
    s: DeliveryRatchetState,
    rotated: Option<[u8; 32]>,
) -> Option<[u8; 32]> {
    match rotated {
        Some(k) => Some(k),
        None => s.current,
    }
}

/// What is done when something happened.
pub open spec fn announce_step(s: DeliveryRatchetState, event: AnnounceEvent) -> (
    DeliveryRatchetState,
    AnnounceAction,
) {
    match (s.phase, event) {
        (_, AnnounceEvent::Start { identity_matches, clock_valid, tagged }) => {
            if !identity_matches {
                gives_up(s, DeliveryRatchetError::DestinationMismatch)
            } else if !clock_valid {
                gives_up(s, DeliveryRatchetError::Destination)
            } else if tagged {
                (in_phase(s, AnnouncePhase::LookingUp), AnnounceAction::LookUpReply)
            } else {
                goes_on(s)
            }
        },
        (AnnouncePhase::LookingUp, AnnounceEvent::ReplyFound) => (
            in_phase(s, AnnouncePhase::Idle),
            AnnounceAction::Replay,
        ),
        (AnnouncePhase::LookingUp, AnnounceEvent::ReplyMissing) => goes_on(s),
        (AnnouncePhase::LookingUp, AnnounceEvent::ReplyUnknown) => gives_up(
            s,
            DeliveryRatchetError::Destination,
        ),
        (AnnouncePhase::Preparing, AnnounceEvent::Coalesced) => gives_up(
            s,
            DeliveryRatchetError::Coalesced,
        ),
        (AnnouncePhase::Preparing, AnnounceEvent::PlanFailed) => gives_up(
            s,
            DeliveryRatchetError::Plan,
        ),
        (AnnouncePhase::Preparing, AnnounceEvent::Prepared { wire, rotation_due }) => {
            if (s.current is None || rotation_due) && s.ring_file_trusted {
                (in_phase(s, AnnouncePhase::SavingRing { wire }), AnnounceAction::SaveRing)
            } else {
                stores_control(s, wire, None)
            }
        },
        (AnnouncePhase::SavingRing { wire }, AnnounceEvent::RingSaved { public_key }) => {
            stores_control(s, wire, Some(public_key))
        },
        (AnnouncePhase::SavingRing { wire }, AnnounceEvent::RingNotSaved) => stores_control(
            s,
            wire,
            None,
        ),
        (AnnouncePhase::SavingControl { wire, rotated }, AnnounceEvent::ControlNotSaved) => {
            gives_up(s, DeliveryRatchetError::PersistControl)
        },
        (AnnouncePhase::SavingControl { wire, rotated }, AnnounceEvent::ControlSaved) => match wire {
            Some(w) => (
                DeliveryRatchetState {
                    current: carried(s, rotated),
                    last_announce_wire: Some(w),
                    ..in_phase(s, AnnouncePhase::Idle)
                },
                AnnounceAction::Publish {
                    ratchet: carried(s, rotated),
                    wire: w,
                    commit_rotation: rotated is Some,
                },
            ),
            None => gives_up(s, DeliveryRatchetError::Invariant),
        },
        _ => (s, AnnounceAction::Ignore),
    }
}

impl DeliveryRatchetState {
    /// Finishes loading.  `saved` is the public part of the first key, where it was to be
    /// made and could be stored.
    pub fn finish_load(plan: &LoadPlan, saved: Option<[u8; 32]>) -> (r: (Self, LoadFinish))
        ensures
            ({
                let first = plan.initialise_ring && saved is Some;
                &&& r.0 == (DeliveryRatchetState {
                    ring_file_trusted: plan.ring_file_trusted,
                    control_file_trusted: plan.control_file_trusted,
                    current: if first {
                        saved
                    } else {
                        plan.current
                    },
                    last_announce_wire: plan.last_announce_wire,
                    phase: AnnouncePhase::Idle,
                })
                &&& r.1 == (LoadFinish {
                    commit_ring: first,
                    save_control: plan.control_file_trusted && (!plan.control_existed
                        || plan.anchor_rotation || first),
                })
            }),
    {
        let first = plan.initialise_ring && saved.is_some();
        (
            DeliveryRatchetState {
                ring_file_trusted: plan.ring_file_trusted,
                control_file_trusted: plan.control_file_trusted,
                current: if first {
                    saved
                } else {
                    plan.current
                },
                last_announce_wire: plan.last_announce_wire,
                phase: AnnouncePhase::Idle,
            },
            LoadFinish {
                commit_ring: first,
                save_control: plan.control_file_trusted && (!plan.control_existed
                    || plan.anchor_rotation || first),
            },
        )
    }

    /// Whether the keys, and whether the control state, are to be stored on shutdown.
    pub fn shutdown_saves(&self) -> (r: (bool, bool))
        ensures
            r == (self.ring_file_trusted, self.control_file_trusted),
    {
        (self.ring_file_trusted, self.control_file_trusted)
    }

    fn give_up(&mut self, e: DeliveryRatchetError) -> (action: AnnounceAction)
        ensures
            (*final(self), action) == gives_up(*old(self), e),
    {
        self.phase = AnnouncePhase::Idle;
        AnnounceAction::Fail(e)
    }

    fn go_on(&mut self) -> (action: AnnounceAction)
        ensures
            (*final(self), action) == goes_on(*old(self)),
    {
        if self.control_file_trusted {
            self.phase = AnnouncePhase::Preparing;
            AnnounceAction::Prepare
        } else {
            self.give_up(DeliveryRatchetError::UntrustedControl)
        }
    }

    fn store_control(&mut self, wire: Option<u64>, rotated: Option<[u8; 32]>) -> (action:
        AnnounceAction)
        ensures
            (*final(self), action) == stores_control(*old(self), wire, rotated),
    {
        self.phase = AnnouncePhase::SavingControl { wire, rotated };
        AnnounceAction::SaveControl { record_rotation: rotated.is_some() }
    }

    /// Begins an announcement.
    pub fn create_announce(
        &mut self,
        kind: DeliveryAnnounceKind<'_>,
        identity_matches: bool,
        clock_valid: bool,
    ) -> (action: AnnounceAction)
        ensures
            (*final(self), action) == announce_step(
                *old(self),
                AnnounceEvent::Start {
                    identity_matches,
                    clock_valid,
                    tagged: kind matches DeliveryAnnounceKind::PathResponse { tag: Some(_) },
                },
            ),
    {
        let (_, tag) = kind.path_response();
        self.step(AnnounceEvent::Start { identity_matches, clock_valid, tagged: tag.is_some() })
    }

    /// Says what is to be done next in the making of an announcement.
    pub fn step(&mut self, event: AnnounceEvent) -> (action: AnnounceAction)
        ensures
            (*final(self), action) == announce_step(*old(self), event),
    {
        match (self.phase, event) {
            (_, AnnounceEvent::Start { identity_matches, clock_valid, tagged }) => {
                if !identity_matches {
                    self.give_up(DeliveryRatchetError::DestinationMismatch)
                } else if !clock_valid {
                    self.give_up(DeliveryRatchetError::Destination)
                } else if tagged {
                    self.phase = AnnouncePhase::LookingUp;
                    AnnounceAction::LookUpReply
                } else {
                    self.go_on()
                }
            },
            (AnnouncePhase::LookingUp, AnnounceEvent::ReplyFound) => {
                self.phase = AnnouncePhase::Idle;
                AnnounceAction::Replay
            },
            (AnnouncePhase::LookingUp, AnnounceEvent::ReplyMissing) => self.go_on(),
            (AnnouncePhase::LookingUp, AnnounceEvent::ReplyUnknown) => self.give_up(
                DeliveryRatchetError::Destination,
            ),
            (AnnouncePhase::Preparing, AnnounceEvent::Coalesced) => self.give_up(
                DeliveryRatchetError::Coalesced,
            ),
            (AnnouncePhase::Preparing, AnnounceEvent::PlanFailed) => self.give_up(
                DeliveryRatchetError::Plan,
            ),
            (AnnouncePhase::Preparing, AnnounceEvent::Prepared { wire, rotation_due }) => {
                if (self.current.is_none() || rotation_due) && self.ring_file_trusted {
                    self.phase = AnnouncePhase::SavingRing { wire };
                    AnnounceAction::SaveRing
                } else {
                    self.store_control(wire, None)
                }
            },
            (AnnouncePhase::SavingRing { wire }, AnnounceEvent::RingSaved { public_key }) => {
                self.store_control(wire, Some(public_key))
            },
            (AnnouncePhase::SavingRing { wire }, AnnounceEvent::RingNotSaved) => {
                self.store_control(wire, None)
            },
            (AnnouncePhase::SavingControl { wire, rotated }, AnnounceEvent::ControlNotSaved) => {
                self.give_up(DeliveryRatchetError::PersistControl)
            },
            (AnnouncePhase::SavingControl { wire, rotated }, AnnounceEvent::ControlSaved) => {
                match wire {
                    Some(w) => {
                        if rotated.is_some() {
                            self.current = rotated;
                        }
                        self.last_announce_wire = Some(w);
                        self.phase = AnnouncePhase::Idle;
                        AnnounceAction::Publish {
                            ratchet: self.current,
                            wire: w,
                            commit_rotation: rotated.is_some(),
                        }
                    },
                    None => self.give_up(DeliveryRatchetError::Invariant),
                }
            },
            _ => AnnounceAction::Ignore,
        }
    }
}

// ---------------------------------------------------------------------------
// What is never done.
// ---------------------------------------------------------------------------

/// The key in use and the time of the last announcement change only when an announcement is
/// published, and that only once its control state was stored.
pub proof fn nothing_is_taken_into_use_before_it_is_stored(
    s: DeliveryRatchetState,
    event: AnnounceEvent,
)
    ensures
        ({
            let (t, action) = announce_step(s, event);
            &&& !(action is Publish) ==> t.current == s.current && t.last_announce_wire
                == s.last_announce_wire
            &&& action is Publish ==> event is ControlSaved && s.phase is SavingControl
            &&& action matches AnnounceAction::Publish { ratchet, wire, commit_rotation } ==> ratchet
                == t.current && t.last_announce_wire == Some(wire)
        }),
{
}

/// Whether an announcement that is being made respects the files that cannot be trusted.
pub open spec fn respects_files(s: DeliveryRatchetState) -> bool {
    match s.phase {
        AnnouncePhase::Idle => true,
        AnnouncePhase::LookingUp => true,
        AnnouncePhase::Preparing => s.control_file_trusted,
        AnnouncePhase::SavingRing { wire } => s.control_file_trusted && s.ring_file_trusted,
        AnnouncePhase::SavingControl { wire, rotated } => s.control_file_trusted && (rotated is Some
            ==> s.ring_file_trusted),
    }
}

/// Files that cannot be trusted are never written, and without trusted control state nothing
/// new is published.
pub proof fn untrusted_files_are_preserved(s: DeliveryRatchetState, event: AnnounceEvent)
    requires
        respects_files(s),
    ensures
        ({
            let (t, action) = announce_step(s, event);
            &&& respects_files(t)
            &&& t.ring_file_trusted == s.ring_file_trusted
            &&& t.control_file_trusted == s.control_file_trusted
            &&& action is SaveRing ==> s.ring_file_trusted
            &&& action is SaveControl ==> s.control_file_trusted
            &&& action is Publish ==> s.control_file_trusted
        }),
{
}

/// A ratchet whose keys cannot be trusted never announces one.
pub proof fn untrusted_keys_are_never_announced(s: DeliveryRatchetState, event: AnnounceEvent)
    requires
        respects_files(s),
        !s.ring_file_trusted,
        s.current is None,
    ensures
        ({
            let (t, action) = announce_step(s, event);
            &&& t.current is None
            &&& action matches AnnounceAction::Publish { ratchet, wire, commit_rotation } ==> ratchet
                is None && !commit_rotation
        }),
{
}

/// Loading writes no file that cannot be trusted, and takes no key from one.
pub proof fn loading_preserves_untrusted_files(ring: RingFile, control: ControlFile)
    ensures
        ({
            let p = load_plan(ring, control);
            &&& ring is Untrusted ==> !p.rewrite_ring && !p.initialise_ring && p.current is None
                && !p.ring_file_trusted
            &&& control is Untrusted ==> !p.anchor_rotation && !p.initialise_ring
                && !p.control_file_trusted
        }),
{
}

// ---------------------------------------------------------------------------
// What is done, and when.
// ---------------------------------------------------------------------------

/// Loading takes over what genuine files say, makes a first key where there is none and both
/// files can be trusted, stores old keys anew, and dates the rotation from loading where nothing
/// tells of one.
pub proof fn loading_takes_over_what_is_genuine(ring: RingFile, control: ControlFile)
    ensures
        ({
            let p = load_plan(ring, control);
            &&& p.ring_file_trusted <==> ring is Missing || ring is Verified
            &&& p.control_file_trusted <==> control is Missing || control is Verified
            &&& ring matches RingFile::Verified { legacy, current } ==> p.current == current
                && p.rewrite_ring == legacy
            &&& !(ring is Verified) ==> p.current is None && !p.rewrite_ring
            &&& control matches ControlFile::Verified { rotation_known, last_announce_wire } ==> {
                &&& p.last_announce_wire == last_announce_wire
                &&& p.anchor_rotation == !rotation_known
            }
            &&& control is Missing ==> p.last_announce_wire is None && p.anchor_rotation
            &&& p.initialise_ring <==> p.current is None && p.ring_file_trusted
                && p.control_file_trusted
            &&& p.control_existed <==> control is Verified || control is Untrusted
        }),
{
}

/// An announcement is begun for the right identity and with a valid clock only; a tagged path
/// request is looked up first, and whatever is not looked up is planned where the control state
/// can be trusted.
pub proof fn announcements_begin_in_order(
    s: DeliveryRatchetState,
    identity_matches: bool,
    clock_valid: bool,
    tagged: bool,
)
    ensures
        ({
            let (t, action) = announce_step(
                s,
                AnnounceEvent::Start { identity_matches, clock_valid, tagged },
            );
            &&& !identity_matches ==> action == AnnounceAction::Fail(
                DeliveryRatchetError::DestinationMismatch,
            ) && t.phase is Idle
            &&& identity_matches && !clock_valid ==> action == AnnounceAction::Fail(
                DeliveryRatchetError::Destination,
            ) && t.phase is Idle
            &&& identity_matches && clock_valid && tagged ==> action is LookUpReply && t.phase
                is LookingUp
            &&& identity_matches && clock_valid && !tagged && s.control_file_trusted ==> action
                is Prepare && t.phase is Preparing
            &&& identity_matches && clock_valid && !tagged && !s.control_file_trusted ==> action
                == AnnounceAction::Fail(DeliveryRatchetError::UntrustedControl) && t.phase is Idle
            &&& t.current == s.current
            &&& t.last_announce_wire == s.last_announce_wire
        }),
{
}

/// A path request that was answered before gets the same answer again; one that was not is
/// answered anew; where that cannot be found out, nothing is sent.
pub proof fn path_requests_get_the_same_answer(s: DeliveryRatchetState)
    requires
        s.phase is LookingUp,
    ensures
        announce_step(s, AnnounceEvent::ReplyFound).1 is Replay,
        announce_step(s, AnnounceEvent::ReplyFound).0.phase is Idle,
        s.control_file_trusted ==> announce_step(s, AnnounceEvent::ReplyMissing).1 is Prepare
            && announce_step(s, AnnounceEvent::ReplyMissing).0.phase is Preparing,
        !s.control_file_trusted ==> announce_step(s, AnnounceEvent::ReplyMissing).1
            == AnnounceAction::Fail(DeliveryRatchetError::UntrustedControl),
        announce_step(s, AnnounceEvent::ReplyUnknown).1 == AnnounceAction::Fail(
            DeliveryRatchetError::Destination,
        ),
        announce_step(s, AnnounceEvent::ReplyUnknown).0.phase is Idle,
{
}

/// Once the time is planned, a new key is made where there is none or one is due and the stored
/// keys can be trusted; else the control state is stored at once, without a rotation.  The
/// planned time is kept either way.
pub proof fn keys_are_rotated_when_due(
    s: DeliveryRatchetState,
    wire: Option<u64>,
    rotation_due: bool,
)
    requires
        s.phase is Preparing,
    ensures
        ({
            let (t, action) = announce_step(s, AnnounceEvent::Prepared { wire, rotation_due });
            let rotates = s.ring_file_trusted && (s.current is None || rotation_due);
            &&& action is SaveRing <==> rotates
            &&& rotates ==> t.phase == (AnnouncePhase::SavingRing { wire })
            &&& !rotates ==> action == (AnnounceAction::SaveControl { record_rotation: false })
                && t.phase == (AnnouncePhase::SavingControl { wire, rotated: None })
        }),
        announce_step(s, AnnounceEvent::Coalesced).1 == AnnounceAction::Fail(
            DeliveryRatchetError::Coalesced,
        ),
        announce_step(s, AnnounceEvent::PlanFailed).1 == AnnounceAction::Fail(
            DeliveryRatchetError::Plan,
        ),
{
}

/// A key that was stored goes into the control state as a rotation; one that could not be stored
/// does not, and the announcement is made with the key in use.
pub proof fn unsaved_keys_are_not_announced(
    s: DeliveryRatchetState,
    wire: Option<u64>,
    public_key: [u8; 32],
)
    requires
        s.phase == (AnnouncePhase::SavingRing { wire }),
    ensures
        announce_step(s, AnnounceEvent::RingSaved { public_key }).1 == (AnnounceAction::SaveControl {
            record_rotation: true,
        }),
        announce_step(s, AnnounceEvent::RingSaved { public_key }).0.phase == (
        AnnouncePhase::SavingControl { wire, rotated: Some(public_key) }),
        announce_step(s, AnnounceEvent::RingNotSaved).1 == (AnnounceAction::SaveControl {
            record_rotation: false,
        }),
        announce_step(s, AnnounceEvent::RingNotSaved).0.phase == (AnnouncePhase::SavingControl {
            wire,
            rotated: None,
        }),
{
}

/// Once the control state is stored, the announcement is published at its time, with the new key
/// where there is one and the key in use else; that key and that time are then in use.  Where the
/// control state cannot be stored, nothing is.
pub proof fn stored_announcements_are_published(
    s: DeliveryRatchetState,
    wire: Option<u64>,
    rotated: Option<[u8; 32]>,
)
    requires
        s.phase == (AnnouncePhase::SavingControl { wire, rotated }),
    ensures
        ({
            let (t, action) = announce_step(s, AnnounceEvent::ControlSaved);
            let key = if rotated is Some {
                rotated
            } else {
                s.current
            };
            &&& t.phase is Idle
            &&& wire matches Some(w) ==> {
                &&& action == (AnnounceAction::Publish {
                    ratchet: key,
                    wire: w,
                    commit_rotation: rotated is Some,
                })
                &&& t.current == key
                &&& t.last_announce_wire == Some(w)
            }
            &&& wire is None ==> action == AnnounceAction::Fail(DeliveryRatchetError::Invariant)
                && t.current == s.current
        }),
        announce_step(s, AnnounceEvent::ControlNotSaved).1 == AnnounceAction::Fail(
            DeliveryRatchetError::PersistControl,
        ),
        announce_step(s, AnnounceEvent::ControlNotSaved).0.current == s.current,
        announce_step(s, AnnounceEvent::ControlNotSaved).0.phase is Idle,
{
}

/// An event that is not waited for is ignored, and changes nothing.
pub proof fn other_events_are_ignored(s: DeliveryRatchetState, event: AnnounceEvent)
    ensures
        ({
            let (t, action) = announce_step(s, event);
            let awaited = match event {
                AnnounceEvent::Start { .. } => true,
                AnnounceEvent::ReplyFound => s.phase is LookingUp,
                AnnounceEvent::ReplyMissing => s.phase is LookingUp,
                AnnounceEvent::ReplyUnknown => s.phase is LookingUp,
                AnnounceEvent::Prepared { .. } => s.phase is Preparing,
                AnnounceEvent::Coalesced => s.phase is Preparing,
                AnnounceEvent::PlanFailed => s.phase is Preparing,
                AnnounceEvent::RingSaved { .. } => s.phase is SavingRing,
                AnnounceEvent::RingNotSaved => s.phase is SavingRing,
                AnnounceEvent::ControlSaved => s.phase is SavingControl,
                AnnounceEvent::ControlNotSaved => s.phase is SavingControl,
            };
            &&& action is Ignore <==> !awaited
            &&& !awaited ==> t == s
            &&& action is Fail ==> t == (DeliveryRatchetState { phase: AnnouncePhase::Idle, ..s })
        }),
{
}

} // verus!
