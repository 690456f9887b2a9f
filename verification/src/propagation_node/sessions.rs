//! The sessions of a node with its peers.

use vstd::prelude::*;

use crate::bytes::fixed;
use crate::peer::{LxmPeer, PeerModel};
use crate::propagation_node::offers::lemma_filter_members;
use crate::propagation_node::requests::{message_bytes, is_stored, stored_payloads};
use crate::propagation_node::{holds_id, is_authoritative, NodeModel, PropagationNode};
use crate::storage::LxmfStorage;
use crate::sync::{
    answered, collect_ids, declined, id_bytes, is_id, proper_ids, OfferContent, SessionModel,
    SyncGet, SyncOffer, SyncSession, SyncState,
};
use crate::types::PropagationTransientId;

verus! {

/// A session that has done nothing yet.
pub open spec fn fresh_session(peer_hash: [u8; 16], now: i64) -> SessionModel {
    SessionModel {
        peer_hash,
        state: SyncState::Idle,
        offered_ids: Seq::empty(),
        wanted_ids: Seq::empty(),
        transferred: 0,
        last_activity: now,
    }
}

/// The session of a node with a peer; a fresh one where there is none.
pub open spec fn session_with(m: NodeModel, peer_hash: [u8; 16], now: i64) -> SessionModel {
    if m.sessions.contains_key(peer_hash) {
        m.sessions[peer_hash]
    } else {
        fresh_session(peer_hash, now)
    }
}

/// A node with one session in the place of what it had with a peer.
pub open spec fn with_session(
    m: NodeModel,
    peer_hash: [u8; 16],
    session: SessionModel,
) -> NodeModel {
    NodeModel { sessions: m.sessions.insert(peer_hash, session), ..m }
}

/// Whether `ids` are what a node offers a peer: all that it holds but what the peer is
/// known to have.  Where it is not `sure`, some may be missing.
pub open spec fn is_offer_to(
    m: NodeModel,
    sure: bool,
    handled: Option<Seq<PropagationTransientId>>,
    ids: Seq<PropagationTransientId>,
) -> bool {
    &&& ids.no_duplicates()
    &&& forall|k: [u8; 32]| #[trigger]
        ids.contains(k) ==> holds_id(m, k) && !(handled is Some && handled->0.contains(k))
    &&& sure ==> forall|k: [u8; 32]| #[trigger]
        ids.contains(k) <==> holds_id(m, k) && !(handled is Some && handled->0.contains(k))
}

/// The identifiers behind a reference.
pub open spec fn ids_of(list: Option<&Vec<PropagationTransientId>>) -> Option<
    Seq<PropagationTransientId>,
> {
    match list {
        Some(ids) => Some(ids@),
        None => None,
    }
}

/// Whether a node asks for `wanted` when it is offered `offered`: for what it lacks.
/// Where it is not `sure`, it may ask for what it holds.
pub open spec fn is_request_for(
    m: NodeModel,
    sure: bool,
    offered: Seq<Seq<u8>>,
    wanted: Seq<Seq<u8>>,
) -> bool {
    &&& exists|answers: Seq<bool>|
        #![trigger declined(offered, answers)]
        wanted == declined(offered, answers) && answers.len() == offered.len() && forall|i: int|
            0 <= i < offered.len() && is_id(offered[i]) ==> ((#[trigger] answers[i]) ==> holds_id(
                m,
                fixed(offered[i]),
            ))
    &&& sure ==> wanted == offered.filter(|b: Seq<u8>| is_id(b) && !holds_id(m, fixed(b)))
}

/// Where the answers are those of a node, what is declined is what it lacks.
proof fn lemma_declined_missing(m: NodeModel, offered: Seq<Seq<u8>>, answers: Seq<bool>)
    requires
        forall|i: int|
            0 <= i < offered.len() && is_id(offered[i]) ==> #[trigger] answers[i] == holds_id(
                m,
                fixed(offered[i]),
            ),
    ensures
        declined(offered, answers) == offered.filter(
            |b: Seq<u8>| is_id(b) && !holds_id(m, fixed(b)),
        ),
    decreases offered.len(),
{
    reveal(Seq::filter);
    if offered.len() > 0 {
        let last = offered.len() - 1;
        assert(is_id(offered[last]) ==> answers[last] == holds_id(m, fixed(offered[last])));
        lemma_declined_missing(m, offered.drop_last(), answers);
    }
}

impl<S: LxmfStorage> PropagationNode<S> {
    pub fn get_session(&self, peer_hash: &[u8; 16]) -> (r: Option<&SyncSession>)
        ensures
            r is Some <==> self@.sessions.contains_key(*peer_hash),
            r matches Some(s) ==> s@ == self@.sessions[*peer_hash],
    {
        self.sessions.get(peer_hash)
    }

    /// The session with a peer, to be changed.
    pub fn get_session_mut(&mut self, peer_hash: &[u8; 16]) -> (r: Option<&mut SyncSession>)
        ensures
            r is Some <==> old(self)@.sessions.contains_key(*peer_hash),
            r matches Some(s) ==> s@ == old(self)@.sessions[*peer_hash] && final(self)@
                == with_session(old(self)@, *peer_hash, final(s)@),
            r is None ==> final(self)@ == old(self)@,
            final(self).reliable() == old(self).reliable(),
    {
        self.sessions.get_mut(peer_hash)
    }

    /// The session with a peer, to be changed; a new one where there was none.
    pub fn start_session(&mut self, peer_hash: [u8; 16], now: i64) -> (s: &mut SyncSession)
        ensures
            s@ == session_with(old(self)@, peer_hash, now),
            final(self)@ == with_session(old(self)@, peer_hash, final(s)@),
            final(self).reliable() == old(self).reliable(),
    {
        let ghost before = self@.sessions;
        if !self.sessions.contains_key(&peer_hash) {
            self.sessions.insert(peer_hash, SyncSession::new(peer_hash, now));
        }
        let s = self.sessions.get_mut(&peer_hash).unwrap();
        assert(before.insert(peer_hash, session_with(old(self)@, peer_hash, now)).insert(
            peer_hash,
            final(s)@,
        ) =~= before.insert(peer_hash, final(s)@));
        s
    }

    pub fn remove_session(&mut self, peer_hash: &[u8; 16])
        ensures
            final(self)@ == (NodeModel {
                sessions: old(self)@.sessions.remove(*peer_hash),
                ..old(self)@
            }),
            final(self).reliable() == old(self).reliable(),
    {
        let _ = self.sessions.remove(peer_hash);
    }

    /// Takes the session with a peer out, or opens one.
    fn take_session(&mut self, peer_hash: [u8; 16], now: i64) -> (s: SyncSession)
        ensures
            s@ == session_with(old(self)@, peer_hash, now),
            final(self)@ == (NodeModel {
                sessions: old(self)@.sessions.remove(peer_hash),
                ..old(self)@
            }),
            final(self).reliable() == old(self).reliable(),
    {
        match self.sessions.remove(&peer_hash) {
            Some(s) => s,
            None => SyncSession::new(peer_hash, now),
        }
    }

    /// Offers a peer what it lacks.  `handled` is what the peer is known to have, where
    /// something is known of it.
    pub fn prepare_sync_offer(
        &mut self,
        peer_hash: [u8; 16],
        handled: Option<&Vec<PropagationTransientId>>,
        now: i64,
    ) -> (offer: SyncOffer)
        ensures
            final(self).reliable() == old(self).reliable(),
            exists|ids: Seq<PropagationTransientId>| #[trigger]
                is_offer_to(old(self)@, old(self).is_sure(), ids_of(handled), ids) && offer@ == (
                OfferContent { peering_key: Seq::empty(), transient_ids: id_bytes(ids) })
                    && final(self)@ == with_session(
                    old(self)@,
                    peer_hash,
                    SessionModel {
                        offered_ids: ids,
                        state: SyncState::OfferSent,
                        last_activity: now,
                        ..session_with(old(self)@, peer_hash, now)
                    },
                ),
    {
        let ids = match handled {
            Some(known) => self.create_offer_filtered(known),
            None => self.create_offer(peer_hash, None),
        };
        let ghost offered = ids@;
        assert(is_offer_to(old(self)@, old(self).is_sure(), ids_of(handled), offered));
        let mut session = self.take_session(peer_hash, now);
        let no_key: Vec<u8> = Vec::new();
        let offer = session.prepare_offer(ids, no_key, now);
        self.sessions.insert(peer_hash, session);
        proof {
            assert(no_key@ =~= Seq::empty());
            assert(old(self)@.sessions.remove(peer_hash).insert(peer_hash, session@)
                =~= old(self)@.sessions.insert(peer_hash, session@));
        }
        offer
    }

    /// What the node asks for of an offer.
    fn request_for(&self, offer: &SyncOffer, session: SyncSession, now: i64) -> (r: (
        SyncSession,
        SyncGet,
    ))
        ensures
            r.0@ == (SessionModel {
                state: SyncState::Receiving,
                last_activity: now,
                ..session@
            }),
            is_request_for(self@, self.is_sure(), offer@.transient_ids, r.1@),
    {
        let mut session = session;
        let contains = |id: &PropagationTransientId| -> (b: bool)
            ensures
                b ==> holds_id(self@, *id),
                self.is_sure() ==> b == holds_id(self@, *id),
            { self.contains(id) };
        let get = session.process_offer_with(offer, contains, now);
        proof {
            let offered = offer@.transient_ids;
            let answers = choose|answers: Seq<bool>|
                #![trigger declined(offered, answers)]
                answered(contains, offered, answers) && get@ == declined(offered, answers);
            assert forall|i: int| 0 <= i < offered.len() && is_id(offered[i]) implies ((
            #[trigger] answers[i]) ==> holds_id(self@, fixed(offered[i]))) && (self.is_sure()
                ==> answers[i] == holds_id(self@, fixed(offered[i]))) by {
                assert(call_ensures(contains, (&fixed::<32>(offered[i]),), answers[i]));
            }
            if self.is_sure() {
                lemma_declined_missing(self@, offered, answers);
            }
        }
        (session, get)
    }

    /// Asks for what a peer offers and the node lacks.
    pub fn process_sync_offer(&mut self, peer_hash: [u8; 16], offer: &SyncOffer, now: i64) -> (get:
        SyncGet)
        ensures
            final(self).reliable() == old(self).reliable(),
            final(self)@ == with_session(
                old(self)@,
                peer_hash,
                SessionModel { state: SyncState::Receiving, ..fresh_session(peer_hash, now) },
            ),
            is_request_for(old(self)@, old(self).is_sure(), offer@.transient_ids, get@),
    {
        let session = SyncSession::new(peer_hash, now);
        let (session, get) = self.request_for(offer, session, now);
        self.sessions.insert(peer_hash, session);
        get
    }

    /// The bytes of the messages that a peer asks for, where the node keeps them in
    /// storage.
    pub fn process_sync_get(&mut self, peer_hash: [u8; 16], get: &SyncGet, now: i64) -> (list: Vec<
        (PropagationTransientId, Vec<u8>),
    >)
        ensures
            final(self).reliable() == old(self).reliable(),
            final(self)@ == with_session(
                old(self)@,
                peer_hash,
                SessionModel {
                    wanted_ids: proper_ids(get@),
                    state: SyncState::Sending,
                    last_activity: now,
                    ..session_with(old(self)@, peer_hash, now)
                },
            ),
            !is_authoritative(old(self)@.backing) ==> list@.len() == 0,
            forall|i: int|
                0 <= i < list@.len() ==> is_stored(
                    old(self)@.storage.messages,
                    proper_ids(get@),
                    #[trigger] message_bytes(list@)[i],
                ),
            is_authoritative(old(self)@.backing) && old(self).reliable() ==> message_bytes(list@)
                == stored_payloads(old(self)@.storage.messages, proper_ids(get@)),
    {
        let mut session = self.take_session(peer_hash, now);
        session.process_get(get, now);
        self.sessions.insert(peer_hash, session);
        assert(old(self)@.sessions.remove(peer_hash).insert(peer_hash, session@)
            =~= old(self)@.sessions.insert(peer_hash, session@));
        let wanted = collect_ids(&get.wanted_ids);
        self.message_get_request(&wanted)
    }

    /// Notes that a peer has a message: with the peer, where it is known, and in the
    /// session.
    pub fn mark_peer_handled(
        &mut self,
        peer_hash: &[u8; 16],
        peer: Option<LxmPeer>,
        transient_id: &PropagationTransientId,
        now: i64,
    ) -> (r: Option<LxmPeer>)
        requires
            old(self)@.sessions.contains_key(*peer_hash) ==> old(
                self,
            )@.sessions[*peer_hash].transferred < usize::MAX,
        ensures
            final(self).reliable() == old(self).reliable(),
            final(self)@ == (if old(self)@.sessions.contains_key(*peer_hash) {
                let s = old(self)@.sessions[*peer_hash];
                with_session(
                    old(self)@,
                    *peer_hash,
                    SessionModel {
                        transferred: (s.transferred + 1) as usize,
                        last_activity: now,
                        ..s
                    },
                )
            } else {
                old(self)@
            }),
            r is Some <==> peer is Some,
            r matches Some(p) ==> p@ == (PeerModel {
                handled_messages: if peer->0@.handled_messages.contains(*transient_id) {
                    peer->0@.handled_messages
                } else {
                    peer->0@.handled_messages.push(*transient_id)
                },
                ..peer->0@
            }),
    {
        if self.sessions.contains_key(peer_hash) {
            let mut session = self.take_session(*peer_hash, now);
            session.record_transfer(now);
            self.sessions.insert(*peer_hash, session);
            assert(old(self)@.sessions.remove(*peer_hash).insert(*peer_hash, session@)
                =~= old(self)@.sessions.insert(*peer_hash, session@));
        }
        match peer {
            Some(p) => {
                let mut known = p;
                known.add_handled_message(transient_id);
                Some(known)
            },
            None => None,
        }
    }

    /// Ends the session with a peer.
    pub fn complete_sync(&mut self, peer_hash: &[u8; 16])
        ensures
            final(self)@ == (NodeModel {
                sessions: old(self)@.sessions.remove(*peer_hash),
                ..old(self)@
            }),
            final(self).reliable() == old(self).reliable(),
    {
        self.remove_session(peer_hash);
    }

    /// Drops from what a peer is known to have the messages that the node no longer holds.
    pub fn prune_handled_against_store(&self, peer: &mut LxmPeer)
        ensures
            final(peer)@ == (PeerModel {
                handled_messages: final(peer)@.handled_messages,
                ..old(peer)@
            }),
            forall|k: [u8; 32]| #[trigger]
                final(peer)@.handled_messages.contains(k) ==> old(peer)@.handled_messages.contains(
                    k,
                ) && holds_id(self@, k),
            self.is_sure() ==> final(peer)@.handled_messages == old(peer)@.handled_messages.filter(
                |k: [u8; 32]| holds_id(self@, k),
            ),
    {
        let left = self.still_held(&peer.handled_messages);
        peer.handled_messages = left;
    }

    /// Those of some messages that the node holds.
    fn still_held(&self, handled: &Vec<PropagationTransientId>) -> (left: Vec<
        PropagationTransientId,
    >)
        ensures
            forall|k: [u8; 32]| #[trigger]
                left@.contains(k) ==> handled@.contains(k) && holds_id(self@, k),
            self.is_sure() ==> left@ == handled@.filter(|k: [u8; 32]| holds_id(self@, k)),
    {
        let ghost test = |k: [u8; 32]| holds_id(self@, k);
        let mut left: Vec<PropagationTransientId> = Vec::new();
        let mut i: usize = 0;
        assert(left@ =~= handled@.take(0).filter(test)) by {
            reveal(Seq::filter);
        }
        while i < handled.len()
            invariant
                i <= handled@.len(),
                test == (|k: [u8; 32]| holds_id(self@, k)),
                self.is_sure() ==> left@ == handled@.take(i as int).filter(test),
                forall|j: int|
                    0 <= j < left@.len() ==> handled@.contains(#[trigger] left@[j]) && holds_id(
                        self@,
                        left@[j],
                    ),
            decreases handled@.len() - i,
        {
            proof {
                reveal(Seq::filter);
                assert(handled@.take(i + 1).drop_last() =~= handled@.take(i as int));
                assert(handled@.contains(handled@[i as int]));
            }
            if self.contains(&handled[i]) {
                left.push(handled[i]);
            }
            i = i + 1;
        }
        proof {
            assert(handled@.take(i as int) =~= handled@);
            assert forall|k: [u8; 32]| #[trigger] left@.contains(k) implies handled@.contains(k)
                && holds_id(self@, k) by {
                let j = choose|j: int| 0 <= j < left@.len() && left@[j] == k;
                assert(handled@.contains(left@[j]));
            }
        }
        left
    }
}

// ---------------------------------------------------------------------------
// What sessions come to.
// ---------------------------------------------------------------------------

/// A session starts with nothing offered, asked for or transferred.
pub proof fn sessions_start_empty(peer_hash: [u8; 16], now: i64)
    ensures
        ({
            let s = fresh_session(peer_hash, now);
            &&& s.peer_hash == peer_hash
            &&& s.state == SyncState::Idle
            &&& s.offered_ids.len() == 0
            &&& s.wanted_ids.len() == 0
            &&& s.transferred == 0
            &&& s.last_activity == now
        }),
{
}

/// The session with a peer goes on where there is one, and what is kept of it is found again;
/// the sessions with others, and all else that a node knows, stay as they are.
pub proof fn sessions_go_on(
    m: NodeModel,
    peer_hash: [u8; 16],
    other: [u8; 16],
    session: SessionModel,
    now: i64,
)
    ensures
        session_with(with_session(m, peer_hash, session), peer_hash, now) == session,
        other != peer_hash ==> session_with(with_session(m, peer_hash, session), other, now)
            == session_with(m, other, now) && (with_session(
            m,
            peer_hash,
            session,
        ).sessions.contains_key(other) <==> m.sessions.contains_key(other)),
        m.sessions.contains_key(peer_hash) ==> session_with(m, peer_hash, now)
            == m.sessions[peer_hash],
        !m.sessions.contains_key(peer_hash) ==> session_with(m, peer_hash, now)
            == fresh_session(peer_hash, now),
        ({
            let a = with_session(m, peer_hash, session);
            &&& a.config == m.config
            &&& a.index == m.index
            &&& a.prioritised == m.prioritised
            &&& a.storage == m.storage
            &&& a.backing == m.backing
            &&& a.dest_hash == m.dest_hash
            &&& a.offers == m.offers
        }),
{
}

/// A peer is offered each message that the node holds and the peer is not known to have, once,
/// and nothing else.
pub proof fn peers_are_offered_what_they_lack(
    m: NodeModel,
    handled: Option<Seq<PropagationTransientId>>,
    ids: Seq<PropagationTransientId>,
    k: [u8; 32],
)
    requires
        is_offer_to(m, true, handled, ids),
    ensures
        handled is None ==> (ids.contains(k) <==> holds_id(m, k)),
        handled matches Some(known) ==> (ids.contains(k) <==> holds_id(m, k) && !known.contains(k)),
        forall|i: int, j: int| 0 <= i < j < ids.len() ==> ids[i] != ids[j],
{
}

/// A node that is offered messages asks for each identifier that it lacks and for nothing else,
/// in the order of the offer; one that is not sure of what it holds still asks for nothing that
/// it was not offered.
pub proof fn offered_messages_are_asked_for(
    m: NodeModel,
    sure: bool,
    offered: Seq<Seq<u8>>,
    wanted: Seq<Seq<u8>>,
    b: Seq<u8>,
)
    requires
        is_request_for(m, sure, offered, wanted),
    ensures
        wanted.contains(b) ==> offered.contains(b) && b.len() == 32,
        sure ==> (wanted.contains(b) <==> offered.contains(b) && b.len() == 32 && !holds_id(
            m,
            fixed(b),
        )),
        offered.contains(b) && b.len() == 32 && !holds_id(m, fixed(b)) ==> wanted.contains(b),
        sure && (forall|i: int|
            0 <= i < offered.len() ==> (#[trigger] offered[i]).len() == 32 && !holds_id(
                m,
                fixed(offered[i]),
            )) ==> wanted == offered,
{
    let test = |x: Seq<u8>| is_id(x) && !holds_id(m, fixed(x));
    lemma_filter_members(offered, test);
    let answers = choose|answers: Seq<bool>|
        #![trigger declined(offered, answers)]
        wanted == declined(offered, answers) && answers.len() == offered.len() && forall|i: int|
            0 <= i < offered.len() && is_id(offered[i]) ==> ((#[trigger] answers[i]) ==> holds_id(
                m,
                fixed(offered[i]),
            ));
    lemma_declined_members(offered, answers, b);
    if offered.contains(b) && b.len() == 32 && !holds_id(m, fixed(b)) {
        let i = offered.index_of(b);
        assert(is_id(offered[i]));
        assert(!answers[i]);
    }
    if sure && (forall|i: int|
        0 <= i < offered.len() ==> (#[trigger] offered[i]).len() == 32 && !holds_id(
            m,
            fixed(offered[i]),
        )) {
        lemma_filter_all(offered, test);
    }
}

/// A filter that lets everything through changes nothing.
proof fn lemma_filter_all<A>(list: Seq<A>, test: spec_fn(A) -> bool)
    requires
        forall|i: int| 0 <= i < list.len() ==> test(#[trigger] list[i]),
    ensures
        list.filter(test) == list,
    decreases list.len(),
{
    reveal(Seq::filter);
    if list.len() > 0 {
        assert forall|i: int| 0 <= i < list.drop_last().len() implies test(
            #[trigger] list.drop_last()[i],
        ) by {
            assert(test(list[i]));
        }
        lemma_filter_all(list.drop_last(), test);
        assert(test(list[list.len() - 1]));
        assert(list.filter(test) =~= list.drop_last().push(list.last()));
    }
}

/// What is declined is some identifier that was answered with no.
proof fn lemma_declined_members(offered: Seq<Seq<u8>>, answers: Seq<bool>, b: Seq<u8>)
    ensures
        declined(offered, answers).contains(b) <==> exists|i: int|
            0 <= i < offered.len() && #[trigger] offered[i] == b && b.len() == 32 && !answers[i],
    decreases offered.len(),
{
    if offered.len() > 0 {
        let front = offered.drop_last();
        let n = offered.len() - 1;
        lemma_declined_members(front, answers, b);
        let before = declined(front, answers);
        let after = declined(offered, answers);
        if after.contains(b) {
            let j = after.index_of(b);
            if j < before.len() {
                assert(before[j] == b);
                let i = choose|i: int|
                    0 <= i < front.len() && #[trigger] front[i] == b && b.len() == 32
                        && !answers[i];
                assert(offered[i] == b);
            } else {
                assert(offered[n] == b);
            }
        }
        if exists|i: int|
            0 <= i < offered.len() && #[trigger] offered[i] == b && b.len() == 32 && !answers[i] {
            let i = choose|i: int|
                0 <= i < offered.len() && #[trigger] offered[i] == b && b.len() == 32
                    && !answers[i];
            if i < n {
                assert(front[i] == b);
                let j = before.index_of(b);
                assert(after[j] == b);
            } else {
                assert(after[before.len() as int] == b);
            }
        }
    }
}

} // verus!
