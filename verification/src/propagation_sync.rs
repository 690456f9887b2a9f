//! Offering messages to a peer.
//!
//! The link is the embedding program's: it sends the offer, hands back the answer, and sends
//! the messages that were chosen.

use vstd::prelude::*;

use crate::bytes::{contents, copy_slice, list_contains};
use crate::memory::{empty_model, MemoryStorage};
use crate::message::{is_packable, packed, LxMessage};
use crate::msgpack::{
    encode, encoding, lemma_view, models, storable, Datum, Model, MAX_LENGTH, MAX_NESTING,
};
use crate::peer::{new_peer, LxmPeer, PeerModel, PeeringKey};
use crate::propagation_node::offers::offer_in;
use crate::propagation_node::requests::{binary_list, indexed, PlannedMessageRead};
use crate::propagation_node::sessions::{ids_of, is_offer_to, session_with, with_session};
use crate::propagation_node::{
    default_node_config, fresh_node, has_place, held_count, is_authoritative, message_key,
    message_worth, stamp_suffices, with_packed, NodeBacking, NodeModel, PropagationNode,
    PropagationNodeConfig,
};
use crate::storage::LxmfStorage;
use crate::sync::{
    answer_in, byte_items, byte_strings_of_the_right_length_are_identifiers, collect_ids, id_bytes,
    proper_ids, Answer, OfferResponse, SessionModel, SyncState,
};
use crate::types::PropagationTransientId;

verus! {

/// Microseconds between two syncs.
pub const SYNC_INTERVAL: i64 = 300_000_000;

/// Microseconds after which a sync counts as failed.
pub const SYNC_TIMEOUT: i64 = 120_000_000;

#[derive(Debug, Clone, Copy, PartialEq, Eq, Structural)]
pub enum SyncTaskState {
    Idle,
    Establishing,
    Offering,
    AwaitingResponse,
    Transferring,
    Complete,
    Failed,
}

// ---------------------------------------------------------------------------
// Offers and answers.
// ---------------------------------------------------------------------------

/// An offer, as an element.
pub open spec fn offer_element(key: Seq<u8>, ids: Seq<Seq<u8>>) -> Model {
    Model::Array(seq![Model::Binary(key), binary_list(ids)])
}

/// Whether the format has room for an offer.
pub open spec fn fits_offer(key: Seq<u8>, ids: Seq<Seq<u8>>) -> bool {
    &&& key.len() <= MAX_LENGTH
    &&& ids.len() <= MAX_LENGTH
    &&& forall|i: int| 0 <= i < ids.len() ==> (#[trigger] ids[i]).len() <= MAX_LENGTH
}

/// The bytes that an offer is sent as.
pub fn encode_offer(key: &Vec<u8>, ids: &Vec<Vec<u8>>) -> (out: Vec<u8>)
    ensures
        out@ == encoding(offer_element(key@, contents(ids@))),
        fits_offer(key@, contents(ids@)) ==> offer_in(out@) == Some(
            (key@, proper_ids(contents(ids@))),
        ),
{
    let ghost list = contents(ids@);
    let mut elements: Vec<Datum> = Vec::new();
    let mut i: usize = 0;
    while i < ids.len()
        invariant
            i <= ids@.len(),
            elements@.len() == i,
            forall|j: int| 0 <= j < i ==> (#[trigger] elements@[j])@ == Model::Binary(ids@[j]@),
        decreases ids@.len() - i,
    {
        elements.push(Datum::Binary(copy_slice(ids[i].as_slice())));
        i = i + 1;
    }
    let inner = Datum::Array(elements);
    proof {
        lemma_view(&inner);
        assert(models(elements@) =~= binary_list(list)->Array_0);
    }
    let mut items: Vec<Datum> = Vec::new();
    items.push(Datum::Binary(copy_slice(key.as_slice())));
    items.push(inner);
    let d = Datum::Array(items);
    proof {
        lemma_view(&d);
        assert(d@->Array_0 =~= offer_element(key@, list)->Array_0);
        if fits_offer(key@, list) {
            let s = binary_list(list)->Array_0;
            assert forall|i: int| 0 <= i < s.len() implies storable(
                #[trigger] s[i],
                (MAX_NESTING - 2) as nat,
            ) by {
                assert(list[i].len() <= MAX_LENGTH);
            }
            assert(storable(binary_list(list), (MAX_NESTING - 1) as nat));
            let t = d@->Array_0;
            assert forall|i: int| 0 <= i < t.len() implies storable(
                #[trigger] t[i],
                (MAX_NESTING - 1) as nat,
            ) by {}
            assert(storable(d@, MAX_NESTING as nat));
            lemma_binary_list(list);
        }
    }
    encode(&d)
}

/// The byte strings of a list are read as they were written.
proof fn lemma_binary_list(list: Seq<Seq<u8>>)
    ensures
        byte_items(binary_list(list)->Array_0) == list,
    decreases list.len(),
{
    let s = binary_list(list)->Array_0;
    if list.len() > 0 {
        let rest = list.drop_last();
        lemma_binary_list(rest);
        assert(s.drop_last() =~= binary_list(rest)->Array_0);
        assert(rest.push(list.last()) =~= list);
    } else {
        assert(byte_items(s) =~= list);
    }
}

/// The identifiers of some messages.
pub open spec fn offered_ids(offered: Seq<(PropagationTransientId, Seq<u8>)>) -> Seq<
    PropagationTransientId,
> {
    Seq::new(offered.len(), |i: int| offered[i].0)
}

/// The messages that an answer asks for; nothing where it is a refusal.
pub open spec fn asked_for(
    a: Answer,
    offered: Seq<(PropagationTransientId, Seq<u8>)>,
) -> Option<Seq<PropagationTransientId>> {
    match a {
        Answer::WantAll => Some(offered_ids(offered)),
        Answer::HaveAll => Some(Seq::empty()),
        Answer::WantSome(ids) => Some(proper_ids(ids)),
        _ => None,
    }
}

/// The bytes of the offered messages that are asked for, in the order of the offer.
pub open spec fn chosen(
    offered: Seq<(PropagationTransientId, Seq<u8>)>,
    ids: Seq<PropagationTransientId>,
) -> Seq<Seq<u8>>
    decreases offered.len(),
{
    if offered.len() == 0 {
        Seq::empty()
    } else {
        let rest = chosen(offered.drop_last(), ids);
        if ids.contains(offered.last().0) {
            rest.push(offered.last().1)
        } else {
            rest
        }
    }
}

/// Some messages and their bytes.
pub open spec fn offered_models(offered: Seq<(PropagationTransientId, Vec<u8>)>) -> Seq<
    (PropagationTransientId, Seq<u8>),
> {
    Seq::new(offered.len(), |i: int| (offered[i].0, offered[i].1@))
}

/// The messages to send to a peer that answered an offer; nothing where it refused.
pub fn messages_to_send(
    response: &[u8],
    offered: &Vec<(PropagationTransientId, Vec<u8>)>,
) -> (r: Option<Vec<Vec<u8>>>)
    ensures
        ({
            let all = offered_models(offered@);
            match asked_for(answer_in(response@), all) {
                Some(ids) => r is Some && contents(r->0@) == chosen(all, ids),
                None => r is None,
            }
        }),
{
    let ghost all = offered_models(offered@);
    let wanted: Vec<PropagationTransientId> = match OfferResponse::from_msgpack(response) {
        OfferResponse::WantAll => {
            let mut ids: Vec<PropagationTransientId> = Vec::new();
            let mut i: usize = 0;
            while i < offered.len()
                invariant
                    i <= offered@.len(),
                    ids@.len() == i,
                    forall|j: int| 0 <= j < i ==> #[trigger] ids@[j] == offered@[j].0,
                decreases offered@.len() - i,
            {
                ids.push(offered[i].0);
                i = i + 1;
            }
            assert(ids@ =~= offered_ids(all));
            ids
        },
        OfferResponse::HaveAll => {
            let none: Vec<PropagationTransientId> = Vec::new();
            assert(none@ =~= Seq::empty());
            none
        },
        OfferResponse::WantSome(list) => collect_ids(&list),
        _ => {
            return None;
        },
    };
    let mut list: Vec<Vec<u8>> = Vec::new();
    let mut i: usize = 0;
    assert(contents(list@) =~= chosen(all.take(0), wanted@));
    while i < offered.len()
        invariant
            i <= offered@.len(),
            all == offered_models(offered@),
            contents(list@) == chosen(all.take(i as int), wanted@),
        decreases offered@.len() - i,
    {
        let ghost before = list@;
        proof {
            assert(all.take(i + 1).drop_last() =~= all.take(i as int));
            assert(all.take(i + 1).last() == (offered@[i as int].0, offered@[i as int].1@));
        }
        if list_contains(&wanted, &offered[i].0) {
            let copy = copy_slice(offered[i].1.as_slice());
            let ghost c = copy@;
            list.push(copy);
            assert(contents(list@) =~= contents(before).push(c));
        }
        i = i + 1;
    }
    assert(all.take(i as int) =~= all);
    Some(list)
}

// ---------------------------------------------------------------------------
// The task.
// ---------------------------------------------------------------------------

/// What a task knows.
#[verifier::ext_equal]
pub ghost struct TaskModel {
    pub node_dest_hash: Option<[u8; 16]>,
    pub node: NodeModel,
    pub state: SyncTaskState,
    pub last_sync: i64,
    pub sync_started: Option<i64>,
    pub peer: Option<PeerModel>,
    pub active: bool,
}

/// A task that synchronises a node with one peer from time to time.
pub struct PropagationSyncTask<S: LxmfStorage> {
    pub node_dest_hash: Option<[u8; 16]>,
    pub propagation_node: PropagationNode<S>,
    pub state: SyncTaskState,
    pub last_sync: i64,
    pub sync_started: Option<i64>,
    pub peer: Option<LxmPeer>,
    pub workflow_active: bool,
}

/// An optional peer.
pub open spec fn peer_model(p: Option<LxmPeer>) -> Option<PeerModel> {
    match p {
        Some(x) => Some(x@),
        None => None,
    }
}

impl<S: LxmfStorage> View for PropagationSyncTask<S> {
    type V = TaskModel;

    open spec fn view(&self) -> TaskModel {
        TaskModel {
            node_dest_hash: self.node_dest_hash,
            node: self.propagation_node@,
            state: self.state,
            last_sync: self.last_sync,
            sync_started: self.sync_started,
            peer: peer_model(self.peer),
            active: self.workflow_active,
        }
    }
}

/// A task that has done nothing yet.
pub open spec fn fresh_task(node: NodeModel, now: i64) -> TaskModel {
    TaskModel {
        node_dest_hash: None,
        node,
        state: SyncTaskState::Idle,
        last_sync: now,
        sync_started: None,
        peer: None,
        active: false,
    }
}

/// A sync that is to be made.
#[derive(Debug)]
pub struct SyncStart {
    /// The offer.
    pub offer_data: Vec<u8>,
    /// The files of the messages that are offered.
    pub plan: Vec<PlannedMessageRead>,
}

/// A task whose running sync ended, where it did.
pub open spec fn ended(t: TaskModel, result: Option<bool>) -> TaskModel {
    match result {
        Some(success) => TaskModel {
            active: false,
            state: if success {
                SyncTaskState::Complete
            } else {
                SyncTaskState::Failed
            },
            ..t
        },
        None => t,
    }
}

/// Whether a task waits for its next sync, which is due.
pub open spec fn is_due(t: TaskModel, now: i64) -> bool {
    !t.active && t.state == SyncTaskState::Idle && now - t.last_sync >= SYNC_INTERVAL
        && t.node_dest_hash is Some
}

/// A task after a turn in which no sync starts.
pub open spec fn turned(t: TaskModel, now: i64) -> TaskModel {
    if t.active {
        if t.sync_started is Some && now - t.sync_started->0 > SYNC_TIMEOUT {
            TaskModel { state: SyncTaskState::Failed, ..t }
        } else {
            t
        }
    } else if t.state == SyncTaskState::Complete || t.state == SyncTaskState::Failed {
        TaskModel {
            peer: None,
            sync_started: None,
            last_sync: now,
            state: SyncTaskState::Idle,
            ..t
        }
    } else {
        t
    }
}

/// Whether a sync with a peer was started: it is offered what it lacks, under the key that
/// admits the node, and the peer that is kept has that key.
pub open spec fn is_started(
    t: TaskModel,
    after: TaskModel,
    sure: bool,
    node_hash: [u8; 16],
    key: PeeringKey,
    handled: Option<Seq<PropagationTransientId>>,
    now: i64,
    ids: Seq<PropagationTransientId>,
    start: SyncStart,
) -> bool {
    &&& is_offer_to(t.node, sure, handled, ids)
    &&& start.offer_data@ == encoding(offer_element(key.key@, id_bytes(ids)))
    &&& start.plan@ == (if t.node.backing == NodeBacking::Directory {
        indexed(t.node.index, ids)
    } else {
        Seq::empty()
    })
    &&& after == (TaskModel {
        node: with_session(
            t.node,
            node_hash,
            SessionModel {
                offered_ids: ids,
                state: SyncState::OfferSent,
                last_activity: now,
                ..session_with(t.node, node_hash, now)
            },
        ),
        active: true,
        state: SyncTaskState::Establishing,
        sync_started: Some(now),
        peer: Some(
            PeerModel {
                state: crate::constants::PeerState::LinkEstablishing,
                last_sync_attempt: now,
                peering_key: Some(key),
                ..new_peer(node_hash)
            },
        ),
        ..t
    })
}

impl PropagationSyncTask<MemoryStorage> {
    /// A task with a node of its own.
    pub fn new(dest_hash: [u8; 16], now: i64) -> (t: Self)
        ensures
            t@ == fresh_task(
                fresh_node(default_node_config(), dest_hash, empty_model(), NodeBacking::Memory),
                now,
            ),
    {
        let node = PropagationNode::new(PropagationNodeConfig::default(), dest_hash);
        PropagationSyncTask::with_shared_node(node, now)
    }
}

impl<S: LxmfStorage> PropagationSyncTask<S> {
    /// A task for a node.
    pub fn with_shared_node(propagation_node: PropagationNode<S>, now: i64) -> (t: Self)
        ensures
            t@ == fresh_task(propagation_node@, now),
            t.propagation_node == propagation_node,
    {
        PropagationSyncTask {
            node_dest_hash: None,
            propagation_node,
            state: SyncTaskState::Idle,
            last_sync: now,
            sync_started: None,
            peer: None,
            workflow_active: false,
        }
    }

    /// Sets the peer to synchronise with.
    pub fn set_node(&mut self, dest_hash: [u8; 16])
        ensures
            final(self)@ == (TaskModel { node_dest_hash: Some(dest_hash), ..old(self)@ }),
            final(self).propagation_node == old(self).propagation_node,
    {
        self.node_dest_hash = Some(dest_hash);
    }

    pub fn node_dest_hash(&self) -> (h: Option<[u8; 16]>)
        ensures
            h == self@.node_dest_hash,
    {
        self.node_dest_hash
    }

    pub fn message_count(&self) -> (n: usize)
        ensures
            n == held_count(self@.node) || (is_authoritative(self@.node.backing)
                && !self.propagation_node.reliable() && n == 0),
    {
        self.propagation_node.message_count()
    }

    /// Hands the node a message that was sent in the clear.
    pub fn accept_message<F>(&mut self, message: &LxMessage, value_of: F) -> (accepted: bool) where
        F: FnOnce(&[u8; 32], &[u8; 32]) -> u32,

        requires
            forall|id: &[u8; 32], stamp: &[u8; 32]| call_requires(value_of, (id, stamp)),
        ensures
            !accepted ==> final(self)@ == old(self)@,
            accepted ==> message@.hash is Some && is_packable(message@) && exists|value: u8|
                #[trigger]
                message_worth(message@, value_of, value) && stamp_suffices(old(self)@.node, value)
                    && final(self)@ == (TaskModel {
                    node: with_packed(old(self)@.node, message@, value),
                    ..old(self)@
                }),
            accepted && old(self).propagation_node.reliable() ==> has_place(
                old(self)@.node,
                message_key(message@),
                packed(message@).len(),
            ),
            !accepted && old(self).propagation_node.reliable() && message@.hash is Some
                && is_packable(message@) && has_place(
                old(self)@.node,
                message_key(message@),
                packed(message@).len(),
            ) ==> exists|value: u8| #[trigger]
                message_worth(message@, value_of, value) && !stamp_suffices(
                    old(self)@.node,
                    value,
                ),
            final(self).propagation_node.reliable() == old(self).propagation_node.reliable(),
    {
        self.propagation_node.accept_message(message, value_of)
    }

    pub fn peer(&self) -> (p: Option<&LxmPeer>)
        ensures
            p is Some <==> self@.peer is Some,
            p matches Some(x) ==> self@.peer == Some(x@),
    {
        match &self.peer {
            Some(p) => Some(p),
            None => None,
        }
    }

    /// Starts a sync with a peer.  `peering_key` is what admits the node to the peer and what it
    /// is worth, where everything that a link takes is there, and `handled` what the peer is
    /// known to have.
    fn start_sync(
        &mut self,
        node_hash: [u8; 16],
        peering_key: Option<PeeringKey>,
        handled: Option<&Vec<PropagationTransientId>>,
        now: i64,
    ) -> (r: Option<SyncStart>)
        ensures
            r is Some <==> peering_key is Some,
            r is None ==> final(self)@ == (TaskModel {
                state: SyncTaskState::Failed,
                ..old(self)@
            }) && final(self).propagation_node == old(self).propagation_node,
            r matches Some(start) ==> exists|ids: Seq<PropagationTransientId>| #[trigger]
                is_started(
                    old(self)@,
                    final(self)@,
                    old(self).propagation_node.is_sure(),
                    node_hash,
                    peering_key->0,
                    ids_of(handled),
                    now,
                    ids,
                    start,
                ),
            final(self).propagation_node.reliable() == old(self).propagation_node.reliable(),
    {
        let key = match peering_key {
            Some(k) => k,
            None => {
                self.state = SyncTaskState::Failed;
                return None;
            },
        };
        let ghost t = self@;
        let ghost sure = self.propagation_node.is_sure();
        let offer = self.propagation_node.prepare_sync_offer(node_hash, handled, now);
        let key_bytes = copy_slice(key.key.as_slice());
        let offer_data = encode_offer(&key_bytes, &offer.transient_ids);
        let ids = collect_ids(&offer.transient_ids);
        let ghost offered = choose|ids: Seq<PropagationTransientId>| #[trigger]
            is_offer_to(t.node, sure, ids_of(handled), ids) && offer@.transient_ids == id_bytes(ids)
                && self@.node == with_session(
                t.node,
                node_hash,
                SessionModel {
                    offered_ids: ids,
                    state: SyncState::OfferSent,
                    last_activity: now,
                    ..session_with(t.node, node_hash, now)
                },
            );
        proof {
            lemma_proper_ids(offered);
        }
        let plan = self.propagation_node.plan_message_reads(&ids);
        let mut peer = LxmPeer::new(node_hash);
        peer.peering_key = Some(key);
        peer.begin_sync(now);
        self.workflow_active = true;
        self.state = SyncTaskState::Establishing;
        self.sync_started = Some(now);
        self.peer = Some(peer);
        let start = SyncStart { offer_data, plan };
        let r = Some(start);
        assert(is_started(
            old(self)@,
            self@,
            old(self).propagation_node.is_sure(),
            node_hash,
            peering_key->0,
            ids_of(handled),
            now,
            offered,
            r->0,
        ));
        r
    }

    /// Synchronises with a peer now, unless a sync is under way.
    pub fn request_sync_now(
        &mut self,
        dest_hash: [u8; 16],
        peering_key: Option<PeeringKey>,
        handled: Option<&Vec<PropagationTransientId>>,
        now: i64,
    ) -> (r: Option<SyncStart>)
        ensures
            ({
                let t = TaskModel { node_dest_hash: Some(dest_hash), ..old(self)@ };
                if t.state != SyncTaskState::Idle {
                    r is None && final(self)@ == t
                } else if peering_key is None {
                    r is None && final(self)@ == (TaskModel {
                        state: SyncTaskState::Failed,
                        last_sync: now,
                        ..t
                    })
                } else {
                    r is Some && exists|ids: Seq<PropagationTransientId>| #[trigger]
                        is_started(
                            TaskModel { last_sync: now, ..t },
                            final(self)@,
                            old(self).propagation_node.is_sure(),
                            dest_hash,
                            peering_key->0,
                            ids_of(handled),
                            now,
                            ids,
                            r->0,
                        )
                }
            }),
            final(self).propagation_node.reliable() == old(self).propagation_node.reliable(),
    {
        self.node_dest_hash = Some(dest_hash);
        if self.state != SyncTaskState::Idle {
            return None;
        }
        self.last_sync = now;
        self.start_sync(dest_hash, peering_key, handled, now)
    }

    /// One turn: takes the result of a sync that ended, where one did, and tells with which
    /// peer a sync is due; one that has something to offer is then started by
    /// [`Self::start_due_sync`].
    pub fn tick(&mut self, result: Option<bool>, now: i64) -> (due: Option<[u8; 16]>)
        ensures
            final(self).propagation_node == old(self).propagation_node,
            ({
                let t = ended(old(self)@, result);
                let after = final(self)@;
                if is_due(t, now) {
                    ||| due == t.node_dest_hash && held_count(t.node) > 0 && after == t
                    ||| due is None && after == (TaskModel { last_sync: now, ..t }) && (held_count(
                        t.node,
                    ) == 0 || (is_authoritative(t.node.backing) && !old(
                        self,
                    ).propagation_node.reliable()))
                } else {
                    due is None && after == turned(t, now)
                }
            }),
    {
        match result {
            Some(success) => {
                self.workflow_active = false;
                self.state = if success {
                    SyncTaskState::Complete
                } else {
                    SyncTaskState::Failed
                };
            },
            None => {},
        }
        if self.workflow_active {
            match self.sync_started {
                Some(started) => {
                    if now as i128 - started as i128 > SYNC_TIMEOUT as i128 {
                        self.state = SyncTaskState::Failed;
                    }
                },
                None => {},
            }
            return None;
        }
        match self.state {
            SyncTaskState::Idle => {
                if now as i128 - self.last_sync as i128 >= SYNC_INTERVAL as i128 {
                    match self.node_dest_hash {
                        Some(hash) => {
                            if self.message_count() > 0 {
                                return Some(hash);
                            }
                            self.last_sync = now;
                        },
                        None => {},
                    }
                }
                None
            },
            SyncTaskState::Complete | SyncTaskState::Failed => {
                self.peer = None;
                self.sync_started = None;
                self.last_sync = now;
                self.state = SyncTaskState::Idle;
                None
            },
            _ => None,
        }
    }

    /// Starts the sync that is due with a peer.
    pub fn start_due_sync(
        &mut self,
        node_hash: [u8; 16],
        peering_key: Option<PeeringKey>,
        handled: Option<&Vec<PropagationTransientId>>,
        now: i64,
    ) -> (r: Option<SyncStart>)
        ensures
            r is Some <==> peering_key is Some,
            r is None ==> final(self)@ == (TaskModel {
                state: SyncTaskState::Failed,
                ..old(self)@
            }),
            r matches Some(start) ==> exists|ids: Seq<PropagationTransientId>| #[trigger]
                is_started(
                    old(self)@,
                    final(self)@,
                    old(self).propagation_node.is_sure(),
                    node_hash,
                    peering_key->0,
                    ids_of(handled),
                    now,
                    ids,
                    start,
                ),
            final(self).propagation_node.reliable() == old(self).propagation_node.reliable(),
    {
        self.start_sync(node_hash, peering_key, handled, now)
    }
}

/// The identifiers of messages are all identifiers.
proof fn lemma_proper_ids(ids: Seq<PropagationTransientId>)
    ensures
        proper_ids(id_bytes(ids)) == ids,
    decreases ids.len(),
{
    let b = id_bytes(ids);
    if ids.len() > 0 {
        let rest = ids.drop_last();
        lemma_proper_ids(rest);
        assert(b.drop_last() =~= id_bytes(rest));
        crate::bytes::lemma_fixed(ids.last());
        assert(b.last() == ids.last()@);
        assert(rest.push(ids.last()) =~= ids);
    } else {
        assert(proper_ids(b) =~= ids);
    }
}

// ---------------------------------------------------------------------------
// What is sent.
// ---------------------------------------------------------------------------

/// A peer is sent nothing that it was not offered or did not ask for.
pub proof fn only_what_is_asked_for_is_sent(
    offered: Seq<(PropagationTransientId, Seq<u8>)>,
    ids: Seq<PropagationTransientId>,
    message: Seq<u8>,
)
    requires
        chosen(offered, ids).contains(message),
    ensures
        exists|i: int|
            0 <= i < offered.len() && (#[trigger] offered[i]).1 == message && ids.contains(
                offered[i].0,
            ),
    decreases offered.len(),
{
    let list = chosen(offered, ids);
    let k = choose|k: int| 0 <= k < list.len() && list[k] == message;
    if offered.len() > 0 {
        let rest = chosen(offered.drop_last(), ids);
        if k < rest.len() {
            assert(rest[k] == message);
            only_what_is_asked_for_is_sent(offered.drop_last(), ids, message);
            let i = choose|i: int|
                0 <= i < offered.drop_last().len() && (#[trigger] offered.drop_last()[i]).1
                    == message && ids.contains(offered.drop_last()[i].0);
            assert(offered[i].1 == message);
        } else {
            assert(offered[offered.len() - 1].1 == message);
        }
    }
}

/// A peer that wants all is sent every message, and one that has all is sent none.
pub proof fn all_or_nothing_is_sent(offered: Seq<(PropagationTransientId, Seq<u8>)>)
    ensures
        chosen(offered, offered_ids(offered)) == Seq::new(
            offered.len(),
            |i: int| offered[i].1,
        ),
        chosen(offered, Seq::empty()) == Seq::<Seq<u8>>::empty(),
{
    assert forall|i: int| 0 <= i < offered.len() implies offered_ids(offered).contains(
        (#[trigger] offered[i]).0,
    ) by {
        assert(offered_ids(offered)[i] == offered[i].0);
    }
    lemma_chosen(offered, offered_ids(offered));
    lemma_chosen_none(offered);
}

proof fn lemma_chosen(
    offered: Seq<(PropagationTransientId, Seq<u8>)>,
    ids: Seq<PropagationTransientId>,
)
    requires
        forall|i: int| 0 <= i < offered.len() ==> ids.contains((#[trigger] offered[i]).0),
    ensures
        chosen(offered, ids) == Seq::new(offered.len(), |i: int| offered[i].1),
    decreases offered.len(),
{
    let all = Seq::new(offered.len(), |i: int| offered[i].1);
    if offered.len() > 0 {
        let rest = offered.drop_last();
        assert forall|i: int| 0 <= i < rest.len() implies ids.contains((#[trigger] rest[i]).0) by {
            assert(rest[i] == offered[i]);
        }
        lemma_chosen(rest, ids);
        assert(ids.contains(offered[offered.len() - 1].0));
        assert(all =~= Seq::new(rest.len(), |i: int| rest[i].1).push(offered.last().1));
    } else {
        assert(chosen(offered, ids) =~= all);
    }
}

proof fn lemma_chosen_none(offered: Seq<(PropagationTransientId, Seq<u8>)>)
    ensures
        chosen(offered, Seq::empty()) == Seq::<Seq<u8>>::empty(),
    decreases offered.len(),
{
    if offered.len() > 0 {
        lemma_chosen_none(offered.drop_last());
    }
}

/// A peer that wants all is sent all that was offered, one that has all is sent nothing, and one
/// that names identifiers is sent those; a refusal, or an answer that says nothing, ends the sync.
pub proof fn answers_say_what_is_sent(
    a: Answer,
    offered: Seq<(PropagationTransientId, Seq<u8>)>,
)
    ensures
        asked_for(a, offered) is None <==> a is Refused || a is Unknown,
        a is WantAll ==> asked_for(a, offered) == Some(
            offered.map_values(|p: (PropagationTransientId, Seq<u8>)| p.0),
        ),
        a is HaveAll ==> asked_for(a, offered) == Some(Seq::<PropagationTransientId>::empty()),
        a matches Answer::WantSome(ids) ==> asked_for(a, offered) is Some && id_bytes(
            asked_for(a, offered)->0,
        ) == ids.filter(|b: Seq<u8>| b.len() == 32),
{
    assert(offered_ids(offered) =~= offered.map_values(
        |p: (PropagationTransientId, Seq<u8>)| p.0,
    ));
    if let Answer::WantSome(ids) = a {
        byte_strings_of_the_right_length_are_identifiers(ids);
    }
}

/// Every offered message that is asked for is sent, in the order of the offer, and nothing else.
pub proof fn what_is_asked_for_is_sent(
    offered: Seq<(PropagationTransientId, Seq<u8>)>,
    ids: Seq<PropagationTransientId>,
)
    ensures
        chosen(offered, ids) == offered.filter(
            |p: (PropagationTransientId, Seq<u8>)| ids.contains(p.0),
        ).map_values(|p: (PropagationTransientId, Seq<u8>)| p.1),
    decreases offered.len(),
{
    reveal(Seq::filter);
    let asked = |p: (PropagationTransientId, Seq<u8>)| ids.contains(p.0);
    let bytes = |p: (PropagationTransientId, Seq<u8>)| p.1;
    if offered.len() > 0 {
        let front = offered.drop_last();
        what_is_asked_for_is_sent(front, ids);
        if asked(offered.last()) {
            assert(offered.filter(asked) =~= front.filter(asked).push(offered.last()));
            assert(offered.filter(asked).map_values(bytes) =~= front.filter(asked).map_values(
                bytes,
            ).push(offered.last().1));
        } else {
            assert(offered.filter(asked) =~= front.filter(asked));
        }
    } else {
        assert(offered.filter(asked).map_values(bytes) =~= Seq::empty());
    }
}

// ---------------------------------------------------------------------------
// How a task goes on.
// ---------------------------------------------------------------------------

/// A sync is due five minutes after the last, where a peer is set, the task waits and no sync
/// runs.
pub proof fn syncs_are_due_in_time(t: TaskModel, now: i64)
    ensures
        is_due(t, now) <==> now >= t.last_sync + 300_000_000 && t.state == SyncTaskState::Idle
            && !t.active && t.node_dest_hash != None::<[u8; 16]>,
{
}

/// A running sync fails after two minutes, and is left alone before.
pub proof fn syncs_time_out(t: TaskModel, now: i64)
    requires
        t.active,
    ensures
        t.sync_started is Some && now > t.sync_started->0 + 120_000_000 ==> turned(t, now)
            == (TaskModel { state: SyncTaskState::Failed, ..t }),
        t.sync_started is None ==> turned(t, now) == t,
        t.sync_started is Some && now <= t.sync_started->0 + 120_000_000 ==> turned(t, now) == t,
{
}

/// A sync that ended leaves no peer behind, and the task waits for its whole interval before the
/// next; a task that waits is left alone.
pub proof fn ended_syncs_make_way_for_the_next(
    t: TaskModel,
    success: bool,
    now: i64,
    later: i64,
)
    ensures
        ended(t, None) == t,
        ended(t, Some(success)).state == SyncTaskState::Complete <==> success,
        ended(t, Some(success)).state == SyncTaskState::Failed <==> !success,
        ({
            let e = ended(t, Some(success));
            let a = turned(e, now);
            &&& !e.active
            &&& a.state == SyncTaskState::Idle
            &&& !a.active
            &&& a.peer is None
            &&& a.sync_started is None
            &&& a.last_sync == now
            &&& a.node == t.node
            &&& a.node_dest_hash == t.node_dest_hash
            &&& is_due(a, later) <==> t.node_dest_hash is Some && later >= now + 300_000_000
            &&& !is_due(e, now)
        }),
        !t.active && t.state != SyncTaskState::Complete && t.state != SyncTaskState::Failed
            ==> turned(t, now) == t,
        !t.active && (t.state == SyncTaskState::Complete || t.state == SyncTaskState::Failed)
            ==> turned(t, now).state == SyncTaskState::Idle && turned(t, now).last_sync == now
            && turned(t, now).peer is None && turned(t, now).node == t.node,
{
}

/// A sync that starts offers what its session notes as offered, under the key that is kept with
/// the peer; it runs from then on, with the peer that it is for, and nothing else of the node or
/// of the task changes.
pub proof fn started_syncs_run(
    t: TaskModel,
    after: TaskModel,
    sure: bool,
    node_hash: [u8; 16],
    key: PeeringKey,
    handled: Option<Seq<PropagationTransientId>>,
    now: i64,
    ids: Seq<PropagationTransientId>,
    start: SyncStart,
)
    requires
        is_started(t, after, sure, node_hash, key, handled, now, ids, start),
    ensures
        is_offer_to(t.node, sure, handled, ids),
        start.offer_data@ == encoding(
            Model::Array(seq![Model::Binary(key.key@), binary_list(id_bytes(ids))]),
        ),
        after.active,
        after.state == SyncTaskState::Establishing,
        after.sync_started == Some(now),
        after.last_sync == t.last_sync,
        after.node_dest_hash == t.node_dest_hash,
        after.node.sessions.contains_key(node_hash),
        after.node.sessions[node_hash].offered_ids == ids,
        after.node.sessions[node_hash].state == SyncState::OfferSent,
        after.node.sessions[node_hash].last_activity == now,
        after.node.sessions.remove(node_hash) == t.node.sessions.remove(node_hash),
        after.node.index == t.node.index,
        after.node.storage == t.node.storage,
        after.node.config == t.node.config,
        after.node.offers == t.node.offers,
        after.peer is Some,
        after.peer->0.destination_hash == node_hash,
        after.peer->0.peering_key == Some(key),
        after.peer->0.last_sync_attempt == now,
        t.node.backing != NodeBacking::Directory ==> start.plan@.len() == 0,
        t.node.backing == NodeBacking::Directory ==> start.plan@ == indexed(t.node.index, ids),
{
    assert(after.node.sessions.remove(node_hash) =~= t.node.sessions.remove(node_hash));
}

/// A task starts out idle, with no peer set and its first sync a whole interval away.
pub proof fn tasks_start_out_idle(node: NodeModel, now: i64)
    ensures
        ({
            let t = fresh_task(node, now);
            &&& t.node == node
            &&& t.state == SyncTaskState::Idle
            &&& !t.active
            &&& t.node_dest_hash is None
            &&& t.peer is None
            &&& t.sync_started is None
            &&& t.last_sync == now
        }),
{
}

} // verus!
