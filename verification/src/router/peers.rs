//! The peers of a propagation node: who they are, when they are synchronised with, and
//! which of them are dropped.

use vstd::prelude::*;

use crate::bytes::{
    differs, is_less, lemma_lex_less_asymmetric, lemma_lex_less_total, lemma_lex_less_transitive,
    lex_less, list_add, list_contains, list_remove, same, without_element,
};
use crate::constants::{PeerState, ROTATION_HEADROOM_PCT};
use crate::msgpack::encoding;
use crate::peer::{
    at_rest, is_peer, is_poor, is_sync_due, new_peer, peer_element, peer_reads_back, LxmPeer,
    PeerModel,
};
use crate::router::records::{stores, tries};
use crate::router::{with_listed, LxmRouter, RouterModel};
use crate::select::{first, select, strict_order};
use crate::storage::{peer_map, LxmfStorage, StorageError, StorageModel};
use crate::table::{as_map, distinct_keys, kept, lists_keys, without};

verus! {

/// A propagation node that announced itself.
#[derive(Debug, Clone, Copy)]
pub struct AutopeerCandidate {
    pub destination_hash: [u8; 16],
    /// The bit pattern of the seconds at which the node started.
    pub timebase: u64,
    pub transfer_limit: Option<u64>,
    pub sync_limit: Option<u64>,
    pub stamp_cost: Option<u8>,
    pub stamp_flexibility: Option<u8>,
    pub peering_cost: Option<u8>,
    pub hops: Option<u8>,
}

/// A peer as it is kept.
pub open spec fn peer_bytes() -> spec_fn(PeerModel) -> Seq<u8> {
    |p: PeerModel| encoding(peer_element(p))
}

/// The peers as they are kept.
pub open spec fn encoded_peers(peers: Map<[u8; 16], PeerModel>) -> Map<[u8; 16], Seq<u8>> {
    peers.map_values(peer_bytes())
}

/// Storage with the peers of a router.
pub open spec fn with_checkpoint(m: RouterModel) -> StorageModel {
    StorageModel { peers: encoded_peers(m.peers), ..m.storage }
}

/// Whether the peers were put in storage, where a router keeps its state there.
pub open spec fn is_checkpointed(m: RouterModel, after: RouterModel) -> bool {
    if m.storage_authoritative {
        tries(m, after, with_checkpoint(m))
    } else {
        after == m
    }
}

/// The peer that some bytes hold.
pub open spec fn peer_in(data: Seq<u8>) -> Option<PeerModel> {
    if exists|p: PeerModel| is_peer(data, p) {
        Some(choose|p: PeerModel| is_peer(data, p))
    } else {
        None
    }
}

/// The peers with those that some records hold.  A record that holds no peer, or another
/// one than it says, is passed over.
pub open spec fn with_loaded(
    peers: Map<[u8; 16], PeerModel>,
    page: Seq<([u8; 16], Seq<u8>)>,
) -> Map<[u8; 16], PeerModel>
    decreases page.len(),
{
    if page.len() == 0 {
        peers
    } else {
        let rest = with_loaded(peers, page.drop_last());
        match peer_in(page.last().1) {
            Some(p) => if p.destination_hash == page.last().0 {
                rest.insert(page.last().0, p)
            } else {
                rest
            },
            None => rest,
        }
    }
}

/// Some records.
pub open spec fn record_models(page: Seq<([u8; 16], Vec<u8>)>) -> Seq<([u8; 16], Seq<u8>)> {
    Seq::new(page.len(), |i: int| (page[i].0, page[i].1@))
}

/// Whether `page` holds up to `limit` of the peers in storage, each once, or none where
/// storage failed.
pub open spec fn is_peer_page(m: RouterModel, limit: usize, page: Seq<([u8; 16], Seq<u8>)>) -> bool {
    ||| !m.reliable && page.len() == 0
    ||| {
        &&& page.len() == (if limit < m.storage.peers.len() {
            limit as nat
        } else {
            m.storage.peers.len()
        })
        &&& forall|i: int|
            0 <= i < page.len() ==> m.storage.peers.contains_key((#[trigger] page[i]).0)
                && m.storage.peers[page[i].0] == page[i].1
        &&& forall|i: int, j: int|
            0 <= i < j < page.len() ==> (#[trigger] page[i]).0 != (#[trigger] page[j]).0
    }
}

/// A router without a peer.
pub open spec fn without_peer(m: RouterModel, peer: [u8; 16]) -> RouterModel {
    RouterModel { peers: m.peers.remove(peer), ..m }
}

/// A router that forgot a peer, also as one that is never rotated out.
pub open spec fn unpeered(m: RouterModel, peer: [u8; 16]) -> RouterModel {
    RouterModel { static_peers: without_element(m.static_peers, peer), ..without_peer(m, peer) }
}

/// The peer that an announcement makes.
pub open spec fn announced_peer(c: AutopeerCandidate) -> PeerModel {
    PeerModel {
        peering_timebase: c.timebase,
        propagation_transfer_limit: c.transfer_limit,
        propagation_sync_limit: c.sync_limit,
        stamp_cost: c.stamp_cost,
        stamp_cost_flexibility: c.stamp_flexibility,
        peering_cost: peering_cost_of(c),
        ..new_peer(c.destination_hash)
    }
}

/// The work that a node asks of its peers.
pub open spec fn peering_cost_of(c: AutopeerCandidate) -> u8 {
    match c.peering_cost {
        Some(cost) => cost,
        None => 0,
    }
}

/// Whether a router peers with a node that announced itself, as far as there is room.
pub open spec fn wants_peer(m: RouterModel, c: AutopeerCandidate) -> bool {
    &&& m.config.autopeer
    &&& peering_cost_of(c) <= m.config.ext.max_peering_cost
    &&& !m.peers.contains_key(c.destination_hash)
    &&& c.hops matches Some(h) ==> h <= m.config.ext.autopeer_maxdepth
}

/// Whether a router breaks with a peer that now asks for too much work.
pub open spec fn breaks_with(m: RouterModel, c: AutopeerCandidate) -> bool {
    m.config.autopeer && peering_cost_of(c) > m.config.ext.max_peering_cost && m.peers.contains_key(
        c.destination_hash,
    )
}

/// Whether a peer was added, where there is room: `b` says whether there was.
pub open spec fn is_peer_added(
    m: RouterModel,
    after: RouterModel,
    peer: PeerModel,
    b: bool,
) -> bool {
    if m.peers.len() >= m.config.max_peers {
        !b && after == m
    } else {
        b && is_checkpointed(
            RouterModel { peers: m.peers.insert(peer.destination_hash, peer), ..m },
            after,
        )
    }
}

/// A peer with which a sync begins.
pub open spec fn syncing(p: PeerModel, now: i64) -> PeerModel {
    PeerModel { state: PeerState::LinkEstablishing, last_sync_attempt: now, ..p }
}

/// The peers after a sync began with those that wait for one.
pub open spec fn all_syncing(
    peers: Map<[u8; 16], PeerModel>,
    now: i64,
) -> Map<[u8; 16], PeerModel> {
    peers.map_values(
        |p: PeerModel|
            if is_sync_due(p, now) {
                syncing(p, now)
            } else {
                p
            },
    )
}

/// A peer to which a transfer ended.
pub open spec fn transfer_ended(p: PeerModel, success: bool, now: i64) -> PeerModel {
    if success {
        let n = match p.currently_transferring_messages {
            Some(ids) => ids.len(),
            None => 0,
        };
        PeerModel {
            outgoing: (p.outgoing + n) as u64,
            offered: (p.offered + n) as u64,
            currently_transferring_messages: None,
            last_heard: now,
            alive: true,
            state: PeerState::Idle,
            sync_backoff: 0,
            next_sync_attempt: 0,
            ..p
        }
    } else {
        PeerModel { state: PeerState::Idle, ..p }
    }
}

/// Whether the messages that are being transferred can be counted.
pub open spec fn can_count(p: PeerModel) -> bool {
    p.currently_transferring_messages matches Some(ids) ==> p.outgoing + ids.len() <= u64::MAX
        && p.offered + ids.len() <= u64::MAX
}

impl<S: LxmfStorage> LxmRouter<S> {
    /// Up to `limit` peers.
    pub fn peer_hashes(&self, limit: usize) -> (list: Vec<[u8; 16]>)
        ensures
            list@.no_duplicates(),
            list@.len() == (if limit < self@.peers.len() {
                limit as nat
            } else {
                self@.peers.len()
            }),
            forall|k: [u8; 16]| #[trigger] list@.contains(k) ==> self@.peers.contains_key(k),
    {
        let ghost es = self.peers.entries();
        let n: usize = self.peers.len();
        let mut list: Vec<[u8; 16]> = Vec::new();
        let mut i: usize = 0;
        while i < n && i < limit
            invariant
                i <= n,
                i <= limit,
                n == es.len(),
                es == self.peers.entries(),
                distinct_keys(es),
                list@.len() == i,
                forall|j: int| 0 <= j < i ==> #[trigger] list@[j] == es[j].0,
                forall|j: int| 0 <= j < i ==> self@.peers.contains_key(#[trigger] list@[j]),
            decreases n - i,
        {
            list.push(self.peers.key_at(i));
            i = i + 1;
        }
        proof {
            assert forall|a: int, b: int|
                0 <= a < list@.len() && 0 <= b < list@.len() && a != b implies list@[a]
                != list@[b] by {
                assert(es[a].0 != es[b].0);
            }
        }
        list
    }

    pub fn has_peer(&self, destination_hash: &[u8; 16]) -> (b: bool)
        ensures
            b == self@.peers.contains_key(*destination_hash),
    {
        self.peers.contains_key(destination_hash)
    }

    /// Takes a peer out, or makes one.
    fn take_peer(&mut self, destination_hash: &[u8; 16]) -> (p: LxmPeer)
        ensures
            final(self)@ == without_peer(old(self)@, *destination_hash),
            p@ == (if old(self)@.peers.contains_key(*destination_hash) {
                old(self)@.peers[*destination_hash]
            } else {
                new_peer(*destination_hash)
            }),
    {
        match self.peers.remove(destination_hash) {
            Some(p) => p,
            None => LxmPeer::new(*destination_hash),
        }
    }

    /// Adds a peer that is never rotated out, and tells whether that is new.
    pub fn add_static_peer(&mut self, destination_hash: [u8; 16]) -> (changed: bool)
        ensures
            changed == (!old(self)@.peers.contains_key(destination_hash) || !old(
                self,
            )@.static_peers.contains(destination_hash)),
            final(self)@ == (RouterModel {
                peers: old(self)@.peers.insert(
                    destination_hash,
                    PeerModel {
                        is_static: true,
                        ..if old(self)@.peers.contains_key(destination_hash) {
                            old(self)@.peers[destination_hash]
                        } else {
                            new_peer(destination_hash)
                        }
                    },
                ),
                static_peers: with_listed(old(self)@.static_peers, destination_hash),
                ..old(self)@
            }),
    {
        let missing = !self.peers.contains_key(&destination_hash);
        let mut peer = self.take_peer(&destination_hash);
        peer.is_static = true;
        let ghost p = peer@;
        self.peers.insert(destination_hash, peer);
        assert(old(self)@.peers.remove(destination_hash).insert(destination_hash, p)
            =~= old(self)@.peers.insert(destination_hash, p));
        let added = list_add(&mut self.static_peers, destination_hash);
        missing || added
    }

    /// Makes a peer due for a sync.
    pub fn request_peer_sync(&mut self, destination_hash: &[u8; 16]) -> (b: bool)
        ensures
            b == old(self)@.peers.contains_key(*destination_hash),
            final(self)@ == (if b {
                RouterModel {
                    peers: old(self)@.peers.insert(
                        *destination_hash,
                        PeerModel {
                            next_sync_attempt: 0,
                            alive: true,
                            ..old(self)@.peers[*destination_hash]
                        },
                    ),
                    ..old(self)@
                }
            } else {
                old(self)@
            }),
    {
        if !self.peers.contains_key(destination_hash) {
            return false;
        }
        let mut peer = self.take_peer(destination_hash);
        peer.next_sync_attempt = 0;
        peer.alive = true;
        let ghost p = peer@;
        self.peers.insert(*destination_hash, peer);
        assert(old(self)@.peers.remove(*destination_hash).insert(*destination_hash, p)
            =~= old(self)@.peers.insert(*destination_hash, p));
        true
    }

    /// Puts the peers in storage.
    pub fn checkpoint_peers(&mut self) -> (r: Result<(), StorageError>)
        ensures
            stores(old(self)@, final(self)@, with_checkpoint(old(self)@), r),
    {
        let ghost es = self.peers.entries();
        let n: usize = self.peers.len();
        let mut list: Vec<([u8; 16], Vec<u8>)> = Vec::new();
        let mut i: usize = 0;
        proof {
            assert(es.take(0) =~= Seq::empty());
            assert(peer_map(list@) =~= encoded_peers(as_map(es.take(0))));
        }
        while i < n
            invariant
                i <= n,
                n == es.len(),
                es == self.peers.entries(),
                peer_map(list@) == encoded_peers(as_map(es.take(i as int))),
            decreases n - i,
        {
            let ghost before = list@;
            let key = self.peers.key_at(i);
            let bytes = self.peers.value_at(i).to_bytes_with_handled();
            let ghost b = bytes@;
            list.push((key, bytes));
            proof {
                let t = es.take(i as int);
                let u = es.take(i + 1);
                assert(u.drop_last() =~= t);
                assert(u.last() == es[i as int]);
                assert(list@.drop_last() =~= before);
                assert(peer_map(list@) == peer_map(before).insert(key, b));
                assert(encoded_peers(as_map(u)) =~= encoded_peers(as_map(t)).insert(key, b));
            }
            i = i + 1;
        }
        proof {
            assert(es.take(i as int) =~= es);
        }
        self.storage.replace_peers(&list)
    }

    /// Puts the peers in storage, where the router keeps its state there.
    fn checkpoint(&mut self)
        ensures
            is_checkpointed(old(self)@, final(self)@),
    {
        if self.storage_authoritative {
            let _ = self.checkpoint_peers();
        }
    }

    /// Takes peers from storage, and tells how many peers there are.
    pub fn load_persisted_peers(&mut self) -> (n: usize)
        ensures
            exists|page: Seq<([u8; 16], Seq<u8>)>| #[trigger]
                is_peer_page(old(self)@, old(self)@.config.max_peers, page) && final(self)@ == (
                RouterModel { peers: with_loaded(old(self)@.peers, page), ..old(self)@ }),
            n == final(self)@.peers.len(),
    {
        let ghost m = self@;
        let page = match self.storage.peer_page(self.config.max_peers) {
            Ok(p) => p,
            Err(_) => Vec::new(),
        };
        let ghost all = record_models(page@);
        proof {
            assert forall|i: int| 0 <= i < all.len() implies (#[trigger] all[i]) == (
                page@[i].0,
                page@[i].1@,
            ) by {}
            assert(is_peer_page(m, m.config.max_peers, all));
            assert(all.take(0) =~= Seq::empty());
        }
        let mut i: usize = 0;
        while i < page.len()
            invariant
                i <= page@.len(),
                all == record_models(page@),
                self@ == (RouterModel { peers: with_loaded(m.peers, all.take(i as int)), ..m }),
            decreases page@.len() - i,
        {
            proof {
                assert(all.take(i + 1).drop_last() =~= all.take(i as int));
                assert(all.take(i + 1).last() == (page@[i as int].0, page@[i as int].1@));
            }
            let hash = page[i].0;
            match LxmPeer::from_bytes_with_handled(page[i].1.as_slice()) {
                Some(p) => {
                    proof {
                        let d = page@[i as int].1@;
                        assert(is_peer(d, p@));
                        let q = choose|q: PeerModel| is_peer(d, q);
                        peer_reads_back(d, p@, q);
                        assert(at_rest(p@) == p@);
                    }
                    if same(&p.destination_hash, &hash) {
                        self.peers.insert(hash, p);
                    }
                },
                None => {},
            }
            i = i + 1;
        }
        assert(all.take(i as int) =~= all);
        self.peers.len()
    }

    /// The peers that wait for a sync, which then begins.
    pub fn sync_peers(&mut self, now: i64) -> (due: Vec<[u8; 16]>)
        ensures
            lists_keys(
                kept(old(self)@.peers, |k: [u8; 16], p: PeerModel| is_sync_due(p, now)),
                due@,
            ),
            final(self)@ == (RouterModel {
                peers: all_syncing(old(self)@.peers, now),
                ..old(self)@
            }),
    {
        let ghost m = self@;
        let ghost test = |k: [u8; 16], p: PeerModel| is_sync_due(p, now);
        let accepts = |k: &[u8; 16], p: &LxmPeer| -> (b: bool)
            ensures
                b == is_sync_due(p@, now),
            {
                p.alive && p.state == PeerState::Idle && p.unhandled_messages() > 0
                    && p.should_sync(now)
            };
        let due = self.peers.list(accepts, Ghost(test));
        let mut i: usize = 0;
        assert(self@.peers =~= m.peers);
        while i < due.len()
            invariant
                i <= due@.len(),
                test == (|k: [u8; 16], p: PeerModel| is_sync_due(p, now)),
                lists_keys(kept(m.peers, test), due@),
                self@ == (RouterModel { peers: self@.peers, ..m }),
                self@.peers.dom() == m.peers.dom(),
                forall|k: [u8; 16]| #[trigger]
                    m.peers.contains_key(k) ==> self@.peers[k] == (if due@.take(
                        i as int,
                    ).contains(k) {
                        syncing(m.peers[k], now)
                    } else {
                        m.peers[k]
                    }),
            decreases due@.len() - i,
        {
            let ghost before = self@.peers;
            let hash = due[i];
            proof {
                assert(due@.contains(hash));
                assert(m.peers.contains_key(hash));
                let t = due@.take(i as int);
                let u = due@.take(i + 1);
                assert(u =~= t.push(hash));
                assert(!t.contains(hash)) by {
                    if t.contains(hash) {
                        let q = choose|q: int| 0 <= q < t.len() && t[q] == hash;
                        assert(due@[q] == due@[i as int]);
                    }
                }
                assert forall|k: [u8; 16]| #[trigger] u.contains(k) <==> t.contains(k) || k
                    == hash by {
                    if t.contains(k) {
                        let q = choose|q: int| 0 <= q < t.len() && t[q] == k;
                        assert(u[q] == k);
                    }
                    assert(u[t.len() as int] == hash);
                    if u.contains(k) && k != hash {
                        let q = choose|q: int| 0 <= q < u.len() && u[q] == k;
                        assert(t[q] == k);
                    }
                }
            }
            let mut peer = self.take_peer(&hash);
            peer.begin_sync(now);
            self.peers.insert(hash, peer);
            proof {
                assert(self@.peers.dom() =~= m.peers.dom());
            }
            i = i + 1;
        }
        proof {
            assert(due@.take(i as int) =~= due@);
            assert(self@.peers =~= all_syncing(m.peers, now)) by {
                assert forall|k: [u8; 16]| #[trigger]
                    m.peers.contains_key(k) implies self@.peers[k] == all_syncing(
                    m.peers,
                    now,
                )[k] by {
                    assert(due@.contains(k) <==> is_sync_due(m.peers[k], now)) by {
                        assert(kept(m.peers, test).contains_key(k) <==> test(k, m.peers[k]));
                    }
                }
            }
        }
        due
    }

    /// Adds a peer, where there is room.
    pub fn add_peer(&mut self, peer: LxmPeer) -> (b: bool)
        ensures
            is_peer_added(old(self)@, final(self)@, peer@, b),
    {
        if self.peers.len() >= self.config.max_peers {
            return false;
        }
        let hash = peer.destination_hash;
        self.peers.insert(hash, peer);
        self.checkpoint();
        true
    }

    /// Peers with a node that announced itself: where that is wanted, the node is near enough
    /// and asks for no more work than is given, and there is room.  A peer that now asks for
    /// too much is dropped.
    pub fn autopeer(&mut self, candidate: AutopeerCandidate) -> (b: bool)
        ensures
            wants_peer(old(self)@, candidate) ==> is_peer_added(
                old(self)@,
                final(self)@,
                announced_peer(candidate),
                b,
            ),
            breaks_with(old(self)@, candidate) ==> !b && is_checkpointed(
                unpeered(old(self)@, candidate.destination_hash),
                final(self)@,
            ),
            !wants_peer(old(self)@, candidate) && !breaks_with(old(self)@, candidate) ==> !b
                && final(self)@ == old(self)@,
    {
        if !self.config.autopeer {
            return false;
        }
        let cost: u8 = match candidate.peering_cost {
            Some(c) => c,
            None => 0,
        };
        if cost > self.config.ext.max_peering_cost {
            if self.peers.contains_key(&candidate.destination_hash) {
                self.unpeer(&candidate.destination_hash);
            }
            return false;
        }
        if self.peers.contains_key(&candidate.destination_hash) {
            return false;
        }
        match candidate.hops {
            Some(h) => {
                if h as usize > self.config.ext.autopeer_maxdepth {
                    return false;
                }
            },
            None => {},
        }
        let peer = LxmPeer::from_announce(
            candidate.destination_hash,
            candidate.timebase,
            candidate.transfer_limit,
            candidate.sync_limit,
            candidate.stamp_cost,
            candidate.stamp_flexibility,
            candidate.peering_cost,
        );
        assert(peer@ == announced_peer(candidate));
        self.add_peer(peer)
    }

    pub fn remove_peer(&mut self, destination_hash: &[u8; 16])
        ensures
            is_checkpointed(without_peer(old(self)@, *destination_hash), final(self)@),
    {
        let _ = self.peers.remove(destination_hash);
        self.checkpoint();
    }

    /// Drops a peer, also as one that is never rotated out.
    pub fn unpeer(&mut self, destination_hash: &[u8; 16])
        ensures
            is_checkpointed(unpeered(old(self)@, *destination_hash), final(self)@),
    {
        let _ = self.peers.remove(destination_hash);
        list_remove(&mut self.static_peers, destination_hash);
        self.checkpoint();
    }

    /// Notes that a transfer to a peer ended.
    pub fn handle_resource_concluded(&mut self, peer_hash: &[u8; 16], success: bool, now: i64)
        requires
            success && old(self)@.peers.contains_key(*peer_hash) ==> can_count(
                old(self)@.peers[*peer_hash],
            ),
        ensures
            final(self)@ == (if old(self)@.peers.contains_key(*peer_hash) {
                RouterModel {
                    peers: old(self)@.peers.insert(
                        *peer_hash,
                        transfer_ended(old(self)@.peers[*peer_hash], success, now),
                    ),
                    ..old(self)@
                }
            } else {
                old(self)@
            }),
    {
        if !self.peers.contains_key(peer_hash) {
            return;
        }
        let mut peer = self.take_peer(peer_hash);
        let ghost before = peer@;
        if success {
            match &peer.currently_transferring_messages {
                Some(ids) => {
                    let n: u64 = ids.len() as u64;
                    peer.outgoing = peer.outgoing + n;
                    peer.offered = peer.offered + n;
                },
                None => {},
            }
            peer.currently_transferring_messages = None;
            peer.heard(now);
            peer.sync_complete();
        } else {
            peer.sync_failed();
        }
        assert(peer@ == transfer_ended(before, success, now));
        let ghost p = peer@;
        self.peers.insert(*peer_hash, peer);
        assert(old(self)@.peers.remove(*peer_hash).insert(*peer_hash, p)
            =~= old(self)@.peers.insert(*peer_hash, p));
    }
}

// ---------------------------------------------------------------------------
// Rotation.
// ---------------------------------------------------------------------------

/// The messages that a peer took, as the numerator of its acceptance rate.
pub open spec fn taken(p: PeerModel) -> int {
    if p.offered == 0 {
        0
    } else {
        p.outgoing as int
    }
}

/// The messages that a peer was offered, as the denominator of its acceptance rate.
pub open spec fn offers(p: PeerModel) -> int {
    if p.offered == 0 {
        1
    } else {
        p.offered as int
    }
}

/// Whether one peer stands before another: the one that took less of what it was offered,
/// or of two that took as much the one with the smaller hash.
pub open spec fn by_acceptance() -> spec_fn(([u8; 16], PeerModel), ([u8; 16], PeerModel)) -> bool {
    |a: ([u8; 16], PeerModel), b: ([u8; 16], PeerModel)|
        taken(a.1) * offers(b.1) < taken(b.1) * offers(a.1) || (taken(a.1) * offers(b.1) == taken(
            b.1,
        ) * offers(a.1) && lex_less(a.0@, b.0@))
}

proof fn lemma_ratios(a: int, b: int, c: int, d: int, e: int, f: int)
    requires
        b > 0,
        d > 0,
        f > 0,
        a * d <= c * b,
        c * f <= e * d,
    ensures
        a * f <= e * b,
        a * d < c * b || c * f < e * d ==> a * f < e * b,
{
    assert(a * d * f <= c * b * f) by (nonlinear_arith)
        requires
            a * d <= c * b,
            f > 0,
    ;
    assert(c * f * b <= e * d * b) by (nonlinear_arith)
        requires
            c * f <= e * d,
            b > 0,
    ;
    assert(a * d * f == a * f * d) by (nonlinear_arith);
    assert(c * b * f == c * f * b) by (nonlinear_arith);
    assert(e * d * b == e * b * d) by (nonlinear_arith);
    if a * d < c * b {
        assert(a * d * f < c * b * f) by (nonlinear_arith)
            requires
                a * d < c * b,
                f > 0,
        ;
    }
    if c * f < e * d {
        assert(c * f * b < e * d * b) by (nonlinear_arith)
            requires
                c * f < e * d,
                b > 0,
        ;
    }
    assert(a * f <= e * b) by (nonlinear_arith)
        requires
            a * f * d <= e * b * d,
            d > 0,
    ;
    if a * f * d < e * b * d {
        assert(a * f < e * b) by (nonlinear_arith)
            requires
                a * f * d < e * b * d,
                d > 0,
        ;
    }
}

proof fn lemma_by_acceptance()
    ensures
        strict_order(by_acceptance()),
{
    let before = by_acceptance();
    assert forall|a: ([u8; 16], PeerModel)| !(#[trigger] before(a, a)) by {
        lemma_lex_less_asymmetric(a.0@, a.0@);
    }
    assert forall|
        a: ([u8; 16], PeerModel),
        b: ([u8; 16], PeerModel),
        c: ([u8; 16], PeerModel),
    | #[trigger] before(a, b) && #[trigger] before(b, c) implies before(a, c) by {
        lemma_ratios(
            taken(a.1),
            offers(a.1),
            taken(b.1),
            offers(b.1),
            taken(c.1),
            offers(c.1),
        );
        if taken(a.1) * offers(b.1) == taken(b.1) * offers(a.1) && taken(b.1) * offers(c.1)
            == taken(c.1) * offers(b.1) {
            lemma_lex_less_transitive(a.0@, b.0@, c.0@);
            lemma_ratios(
                taken(c.1),
                offers(c.1),
                taken(b.1),
                offers(b.1),
                taken(a.1),
                offers(a.1),
            );
        }
    }
    assert forall|a: ([u8; 16], PeerModel), b: ([u8; 16], PeerModel)|
        a.0 != b.0 implies #[trigger] before(a, b) || before(b, a) by {
        lemma_lex_less_total(a.0@, b.0@);
        if a.0@ == b.0@ {
            assert(a.0 =~= b.0);
        }
    }
}

/// How many peers fewer than the most there should be.
pub open spec fn headroom(max_peers: usize) -> int {
    let share = max_peers * ROTATION_HEADROOM_PCT / 100;
    if share < 1 {
        1
    } else {
        share
    }
}

/// How many peers are to be dropped.
pub open spec fn required_drops(m: RouterModel) -> int {
    m.peers.len() - (m.config.max_peers - headroom(m.config.max_peers))
}

/// How many peers are to be dropped, of those that there are.
pub open spec fn drop_count(m: RouterModel) -> nat {
    if required_drops(m) > m.peers.len() {
        m.peers.len()
    } else {
        required_drops(m) as nat
    }
}

/// The peers with which a sync was never attempted.
pub open spec fn untested(peers: Map<[u8; 16], PeerModel>) -> Map<[u8; 16], PeerModel> {
    kept(peers, |k: [u8; 16], p: PeerModel| p.last_sync_attempt == 0)
}

/// Whether peers are rotated now: there are too many, and not too many of them are untested.
pub open spec fn is_rotation_due(m: RouterModel) -> bool {
    &&& required_drops(m) > 0
    &&& m.peers.len() > 1
    &&& untested(m.peers).len() < headroom(m.config.max_peers)
}

/// Whether a peer may be dropped: it is not static and idle, and it was offered something.
pub open spec fn may_drop(static_peers: Seq<[u8; 16]>) -> spec_fn([u8; 16], PeerModel) -> bool {
    |k: [u8; 16], p: PeerModel|
        !static_peers.contains(k) && p.state == PeerState::Idle && p.offered > 0
}

/// Whether a peer took less than half of what it was offered.
pub open spec fn poor_in(peers: Map<[u8; 16], PeerModel>) -> spec_fn([u8; 16]) -> bool {
    |k: [u8; 16]| is_poor(peers[k])
}

/// Whether `dropped` are the peers that are rotated out: of as many of those that took least
/// as are to be dropped, the ones that took less than half.
pub open spec fn is_rotated_out(m: RouterModel, dropped: Seq<[u8; 16]>) -> bool {
    exists|worst: Seq<[u8; 16]>| #[trigger]
        first(
            m.peers,
            may_drop(m.static_peers),
            by_acceptance(),
            drop_count(m),
            worst,
        ) && dropped == worst.filter(poor_in(m.peers))
}

/// A router without some peers.
pub open spec fn without_peers(m: RouterModel, dropped: Seq<[u8; 16]>) -> RouterModel {
    RouterModel { peers: without(m.peers, dropped), ..m }
}

impl<S: LxmfStorage> LxmRouter<S> {
    /// The peers that took least of what they were offered.
    fn worst_peers(&self, limit: usize) -> (worst: Vec<[u8; 16]>)
        ensures
            first(
                self@.peers,
                may_drop(self@.static_peers),
                by_acceptance(),
                limit as nat,
                worst@,
            ),
            worst@.no_duplicates(),
    {
        let ghost eligible = may_drop(self@.static_peers);
        let ghost order = by_acceptance();
        let accepts = |k: &[u8; 16], p: &LxmPeer| -> (b: bool)
            ensures
                b == may_drop(self@.static_peers)(*k, p@),
            {
                !list_contains(&self.static_peers, k) && p.state == PeerState::Idle && p.offered > 0
            };
        let precedes = |k: &[u8; 16], p: &LxmPeer, l: &[u8; 16], q: &LxmPeer| -> (b: bool)
            ensures
                b == by_acceptance()((*k, p@), (*l, q@)),
            { took_less(k, p, l, q) };
        proof {
            lemma_by_acceptance();
        }
        select(&self.peers, accepts, precedes, limit, Ghost(eligible), Ghost(order))
    }

    /// Drops the peers that took least of what they were offered, where there are too many
    /// peers.
    pub fn rotate_peers(&mut self)
        ensures
            !is_rotation_due(old(self)@) ==> final(self)@ == old(self)@,
            is_rotation_due(old(self)@) ==> exists|dropped: Seq<[u8; 16]>| #[trigger]
                is_rotated_out(old(self)@, dropped) && (if dropped.len() == 0 {
                    final(self)@ == old(self)@
                } else {
                    is_checkpointed(without_peers(old(self)@, dropped), final(self)@)
                }),
    {
        let ghost m = self@;
        let count: usize = self.peers.len();
        let max: usize = self.config.max_peers;
        let share: u128 = max as u128 * ROTATION_HEADROOM_PCT as u128 / 100;
        let room: u128 = if share < 1 {
            1
        } else {
            share
        };
        assert(room == headroom(max)) by {
            assert(max * ROTATION_HEADROOM_PCT / 100 == share);
        }
        let required: i128 = count as i128 - (max as i128 - room as i128);
        if required <= 0 || count <= 1 {
            return;
        }
        let ghost test = |k: [u8; 16], p: PeerModel| p.last_sync_attempt == 0;
        let fresh = |k: &[u8; 16], p: &LxmPeer| -> (b: bool)
            ensures
                b == (p@.last_sync_attempt == 0),
            { p.last_sync_attempt == 0 };
        let untested_count: usize = self.peers.count(fresh, Ghost(test));
        if untested_count as u128 >= room {
            return;
        }
        let limit: usize = if required > count as i128 {
            count
        } else {
            required as usize
        };
        let worst = self.worst_peers(limit);
        let dropped = self.poor_among(&worst);
        proof {
            assert(required == required_drops(m));
            assert(limit == drop_count(m));
            assert(first(
                m.peers,
                may_drop(m.static_peers),
                by_acceptance(),
                drop_count(m),
                worst@,
            ));
            assert(is_rotated_out(m, dropped@));
        }
        if dropped.len() == 0 {
            return;
        }
        self.peers.remove_all(&dropped);
        assert(self@ == without_peers(m, dropped@));
        self.checkpoint();
    }

    /// Those of some peers that took less than half of what they were offered.
    fn poor_among(&self, list: &Vec<[u8; 16]>) -> (poor: Vec<[u8; 16]>)
        requires
            forall|i: int| 0 <= i < list@.len() ==> self@.peers.contains_key(#[trigger] list@[i]),
        ensures
            poor@ == list@.filter(poor_in(self@.peers)),
    {
        let ghost test = poor_in(self@.peers);
        let mut poor: Vec<[u8; 16]> = Vec::new();
        let mut i: usize = 0;
        assert(poor@ =~= list@.take(0).filter(test)) by {
            reveal(Seq::filter);
        }
        while i < list.len()
            invariant
                i <= list@.len(),
                test == poor_in(self@.peers),
                forall|i: int|
                    0 <= i < list@.len() ==> self@.peers.contains_key(#[trigger] list@[i]),
                poor@ == list@.take(i as int).filter(test),
            decreases list@.len() - i,
        {
            proof {
                reveal(Seq::filter);
                assert(list@.take(i + 1).drop_last() =~= list@.take(i as int));
            }
            match self.peers.get(&list[i]) {
                Some(p) => {
                    if p.outgoing as u128 * 2 < p.offered as u128 {
                        poor.push(list[i]);
                    }
                },
                None => {},
            }
            i = i + 1;
        }
        assert(list@.take(i as int) =~= list@);
        poor
    }
}

/// Whether one peer took less of what it was offered than another.
fn took_less(k: &[u8; 16], p: &LxmPeer, l: &[u8; 16], q: &LxmPeer) -> (b: bool)
    ensures
        b == by_acceptance()((*k, p@), (*l, q@)),
{
    let (pt, po): (u64, u64) = if p.offered == 0 {
        (0, 1)
    } else {
        (p.outgoing, p.offered)
    };
    let (qt, qo): (u64, u64) = if q.offered == 0 {
        (0, 1)
    } else {
        (q.outgoing, q.offered)
    };
    proof {
        assert(pt * qo <= 0xffff_ffff_ffff_ffff * 0xffff_ffff_ffff_ffff) by (nonlinear_arith)
            requires
                0 <= pt <= 0xffff_ffff_ffff_ffff,
                0 <= qo <= 0xffff_ffff_ffff_ffff,
        ;
        assert(qt * po <= 0xffff_ffff_ffff_ffff * 0xffff_ffff_ffff_ffff) by (nonlinear_arith)
            requires
                0 <= qt <= 0xffff_ffff_ffff_ffff,
                0 <= po <= 0xffff_ffff_ffff_ffff,
        ;
    }
    let left: u128 = pt as u128 * qo as u128;
    let right: u128 = qt as u128 * po as u128;
    left < right || (left == right && is_less(k, l))
}

/// Rotation drops no static peer and no peer that took at least half of what it was offered.
pub proof fn rotation_spares_good_peers(m: RouterModel, dropped: Seq<[u8; 16]>, k: [u8; 16])
    requires
        is_rotated_out(m, dropped),
        m.peers.contains_key(k),
        m.static_peers.contains(k) || !is_poor(m.peers[k]),
    ensures
        without_peers(m, dropped).peers.contains_key(k),
        without_peers(m, dropped).peers[k] == m.peers[k],
{
    let worst = choose|worst: Seq<[u8; 16]>| #[trigger]
        first(
            m.peers,
            may_drop(m.static_peers),
            by_acceptance(),
            drop_count(m),
            worst,
        ) && dropped == worst.filter(poor_in(m.peers));
    let poor = poor_in(m.peers);
    if dropped.contains(k) {
        let i = choose|i: int| 0 <= i < dropped.len() && dropped[i] == k;
        worst.lemma_filter_pred(poor, i);
        worst.lemma_filter_contains_rev(poor, k);
        let j = choose|j: int| 0 <= j < worst.len() && worst[j] == k;
        assert(may_drop(m.static_peers)(worst[j], m.peers[worst[j]]));
    }
}

// ---------------------------------------------------------------------------
// What peering is for.
// ---------------------------------------------------------------------------

/// A list of which everything passes a test is picked whole.
proof fn lemma_all_picked(s: Seq<[u8; 16]>, test: spec_fn([u8; 16]) -> bool)
    requires
        forall|i: int| 0 <= i < s.len() ==> test(#[trigger] s[i]),
    ensures
        s.filter(test) == s,
    decreases s.len(),
{
    reveal(Seq::filter);
    if s.len() > 0 {
        let rest = s.drop_last();
        assert forall|i: int| 0 <= i < rest.len() implies test(#[trigger] rest[i]) by {
            assert(rest[i] == s[i]);
        }
        lemma_all_picked(rest, test);
        assert(test(s[s.len() - 1]));
        assert(rest.push(s.last()) =~= s);
    } else {
        assert(s.filter(test) =~= s);
    }
}

/// Whether a peer is one that rotation may drop: it is not static, it is idle, and it took less
/// than half of what it was offered.
pub open spec fn is_candidate(m: RouterModel, k: [u8; 16]) -> bool {
    &&& m.peers.contains_key(k)
    &&& !m.static_peers.contains(k)
    &&& m.peers[k].state == PeerState::Idle
    &&& 2 * m.peers[k].outgoing < m.peers[k].offered
}

/// One peer took less than another of what it was offered, and so is poor where the other is.
proof fn lemma_poorer(a: int, b: int, c: int, d: int)
    requires
        0 <= a,
        0 < b,
        0 <= c,
        0 < d,
        a * d <= c * b,
        2 * c < d,
    ensures
        2 * a < b,
{
    assert(2 * c * b < d * b) by (nonlinear_arith)
        requires
            2 * c < d,
            0 < b,
    ;
    assert(2 * a * d <= 2 * c * b) by (nonlinear_arith)
        requires
            a * d <= c * b,
    ;
    assert(d * b == b * d) by (nonlinear_arith);
    assert(2 * a < b) by (nonlinear_arith)
        requires
            2 * a * d < b * d,
            0 < d,
    ;
}

/// Rotation drops idle peers that are not static and took less than half of what they were
/// offered, those that took least first, no more than there are too many, and fewer only where
/// there are no more such peers.
pub proof fn rotation_drops_the_worst(
    m: RouterModel,
    dropped: Seq<[u8; 16]>,
    k: [u8; 16],
    j: [u8; 16],
)
    requires
        is_rotated_out(m, dropped),
    ensures
        dropped.contains(k) ==> is_candidate(m, k),
        required_drops(m) >= 0 ==> dropped.len() <= required_drops(m),
        dropped.contains(k) && is_candidate(m, j) && m.peers[j].outgoing * m.peers[k].offered
            < m.peers[k].outgoing * m.peers[j].offered ==> dropped.contains(j),
        is_candidate(m, j) && !dropped.contains(j) ==> dropped.len() == drop_count(m),
{
    let poor = poor_in(m.peers);
    let worst = choose|worst: Seq<[u8; 16]>| #[trigger]
        first(
            m.peers,
            may_drop(m.static_peers),
            by_acceptance(),
            drop_count(m),
            worst,
        ) && dropped == worst.filter(poor);
    worst.lemma_filter_len(poor);
    if dropped.contains(k) {
        let i = choose|i: int| 0 <= i < dropped.len() && dropped[i] == k;
        worst.lemma_filter_pred(poor, i);
        worst.lemma_filter_contains_rev(poor, k);
        let q = choose|q: int| 0 <= q < worst.len() && worst[q] == k;
        assert(may_drop(m.static_peers)(worst[q], m.peers[worst[q]]));
        if is_candidate(m, j) && m.peers[j].outgoing * m.peers[k].offered < m.peers[k].outgoing
            * m.peers[j].offered && !dropped.contains(j) {
            if worst.contains(j) {
                let r = choose|r: int| 0 <= r < worst.len() && worst[r] == j;
                worst.lemma_filter_contains(poor, r);
            } else {
                assert(may_drop(m.static_peers)(j, m.peers[j]));
                assert(by_acceptance()((worst[q], m.peers[worst[q]]), (j, m.peers[j])));
            }
        }
    }
    if is_candidate(m, j) && !dropped.contains(j) {
        if worst.contains(j) {
            let r = choose|r: int| 0 <= r < worst.len() && worst[r] == j;
            worst.lemma_filter_contains(poor, r);
        }
        assert(may_drop(m.static_peers)(j, m.peers[j]));
        assert forall|i: int| 0 <= i < worst.len() implies poor(#[trigger] worst[i]) by {
            let w = m.peers[worst[i]];
            assert(may_drop(m.static_peers)(worst[i], w));
            assert(by_acceptance()((worst[i], w), (j, m.peers[j])));
            lemma_poorer(
                w.outgoing as int,
                w.offered as int,
                m.peers[j].outgoing as int,
                m.peers[j].offered as int,
            );
        }
        lemma_all_picked(worst, poor);
    }
}

/// Rotation is due where more than nine tenths of the places are taken, more than one peer is
/// there, and fewer than a tenth of the places are taken by peers that were never tried.
pub proof fn rotation_leaves_headroom(m: RouterModel)
    requires
        m.config.max_peers >= 10,
    ensures
        ({
            let tenth = m.config.max_peers as int / 10;
            &&& required_drops(m) == m.peers.len() + tenth - m.config.max_peers
            &&& is_rotation_due(m) <==> m.peers.len() > m.config.max_peers - tenth && m.peers.len()
                > 1 && untested(m.peers).len() < tenth
            &&& required_drops(m) > 0 ==> drop_count(m) == (if m.peers.len() + tenth
                - m.config.max_peers <= m.peers.len() {
                m.peers.len() + tenth - m.config.max_peers
            } else {
                m.peers.len() as int
            })
        }),
{
    let share = m.config.max_peers * ROTATION_HEADROOM_PCT / 100;
    assert(share == m.config.max_peers as int / 10);
}

/// A router peers with a node that announced itself where it is set up to, the node asks for no
/// more work than it gives, is near enough, and is not a peer; it breaks with a peer that asks
/// for more.
pub proof fn announced_nodes_become_peers(m: RouterModel, c: AutopeerCandidate)
    ensures
        ({
            let cost: int = if c.peering_cost is Some {
                c.peering_cost->0 as int
            } else {
                0
            };
            let known = m.peers.contains_key(c.destination_hash);
            let p = announced_peer(c);
            &&& wants_peer(m, c) <==> m.config.autopeer && !known && cost
                <= m.config.ext.max_peering_cost && (c.hops is Some ==> c.hops->0
                <= m.config.ext.autopeer_maxdepth)
            &&& breaks_with(m, c) <==> m.config.autopeer && known && cost
                > m.config.ext.max_peering_cost
            &&& p.destination_hash == c.destination_hash && p.peering_timebase == c.timebase
            &&& p.propagation_transfer_limit == c.transfer_limit && p.propagation_sync_limit
                == c.sync_limit
            &&& p.stamp_cost == c.stamp_cost && p.stamp_cost_flexibility == c.stamp_flexibility
            &&& p.peering_cost == cost && p.state == PeerState::Idle && p.alive && !p.is_static
        }),
{
}

/// A peer is added exactly where there is room, under its own hash; the other peers stay as
/// they are, and where the state is kept in storage the peers are put there.
pub proof fn peers_are_added_where_there_is_room(
    m: RouterModel,
    after: RouterModel,
    peer: PeerModel,
    b: bool,
    other: [u8; 16],
)
    requires
        is_peer_added(m, after, peer, b),
    ensures
        b <==> m.peers.len() < m.config.max_peers,
        !b ==> after == m,
        b ==> after.peers.contains_key(peer.destination_hash)
            && after.peers[peer.destination_hash] == peer,
        other != peer.destination_hash ==> (after.peers.contains_key(other)
            <==> m.peers.contains_key(other)) && after.peers[other] == m.peers[other],
        !m.storage_authoritative ==> after.storage == m.storage,
        b && m.storage_authoritative && m.reliable ==> after.storage.peers.contains_key(
            peer.destination_hash,
        ) && after.storage.peers[peer.destination_hash] == encoding(peer_element(peer)),
        after == (RouterModel {
            peers: after.peers,
            storage: StorageModel { peers: after.storage.peers, ..m.storage },
            ..m
        }),
{
}

/// A peer that is dropped is gone, from storage too; the others stay as they are.
pub proof fn dropped_peers_are_gone(
    m: RouterModel,
    after: RouterModel,
    peer: [u8; 16],
    other: [u8; 16],
)
    requires
        is_checkpointed(unpeered(m, peer), after),
    ensures
        !after.peers.contains_key(peer),
        !after.static_peers.contains(peer),
        other != peer ==> (after.peers.contains_key(other) <==> m.peers.contains_key(other))
            && after.peers[other] == m.peers[other],
        other != peer ==> (after.static_peers.contains(other) <==> m.static_peers.contains(other)),
        m.storage_authoritative && m.reliable ==> !after.storage.peers.contains_key(peer),
        !m.storage_authoritative ==> after.storage == m.storage,
{
    let keep = differs(peer);
    let list = m.static_peers;
    let left = without_element(list, peer);
    if left.contains(peer) {
        let i = choose|i: int| 0 <= i < left.len() && left[i] == peer;
        list.lemma_filter_pred(keep, i);
    }
    if other != peer && list.contains(other) {
        let i = choose|i: int| 0 <= i < list.len() && list[i] == other;
        list.lemma_filter_contains(keep, i);
    }
    if left.contains(other) {
        list.lemma_filter_contains_rev(keep, other);
    }
}

/// A sync begins with exactly the peers that are alive, idle, have messages waiting and whose
/// time has come; of these only the state and the time of the attempt change, and of the
/// others nothing.
pub proof fn syncs_begin_with_peers_that_wait(
    peers: Map<[u8; 16], PeerModel>,
    now: i64,
    k: [u8; 16],
)
    requires
        peers.contains_key(k),
    ensures
        all_syncing(peers, now).contains_key(k),
        ({
            let p = peers[k];
            let q = all_syncing(peers, now)[k];
            let waits = p.alive && p.state == PeerState::Idle && p.unhandled > 0
                && p.next_sync_attempt <= now;
            &&& waits <==> is_sync_due(p, now)
            &&& waits ==> q == (PeerModel {
                state: PeerState::LinkEstablishing,
                last_sync_attempt: now,
                ..p
            })
            &&& !waits ==> q == p
        }),
{
}

/// A transfer that succeeded counts what was transferred as offered and taken, and has the peer
/// at rest, heard of now and due at once; one that failed only has it at rest.
pub proof fn transfers_are_counted(p: PeerModel, success: bool, now: i64)
    requires
        can_count(p),
    ensures
        ({
            let q = transfer_ended(p, success, now);
            let n = if p.currently_transferring_messages is Some {
                p.currently_transferring_messages->0.len()
            } else {
                0
            };
            &&& q.state == PeerState::Idle
            &&& success ==> q.outgoing == p.outgoing + n && q.offered == p.offered + n
                && q.currently_transferring_messages is None && q.last_heard == now && q.alive
                && q.sync_backoff == 0 && q.next_sync_attempt == 0
            &&& !success ==> q == (PeerModel { state: PeerState::Idle, ..p })
            &&& q == (PeerModel {
                outgoing: q.outgoing,
                offered: q.offered,
                currently_transferring_messages: q.currently_transferring_messages,
                last_heard: q.last_heard,
                alive: q.alive,
                state: q.state,
                sync_backoff: q.sync_backoff,
                next_sync_attempt: q.next_sync_attempt,
                ..p
            })
        }),
{
}

/// The peers in storage are taken over under their hashes: a record that holds the peer that it
/// says is, any other is passed over, and peers that no record is of stay as they are.
pub proof fn stored_peers_are_taken_over(
    peers: Map<[u8; 16], PeerModel>,
    page: Seq<([u8; 16], Seq<u8>)>,
    i: int,
    other: [u8; 16],
)
    requires
        0 <= i < page.len(),
        forall|j: int, k: int|
            0 <= j < k < page.len() ==> (#[trigger] page[j]).0 != (#[trigger] page[k]).0,
    ensures
        peer_in(page[i].1) matches Some(p) ==> (p.destination_hash == page[i].0 ==> with_loaded(
            peers,
            page,
        ).contains_key(page[i].0) && with_loaded(peers, page)[page[i].0] == p),
        (forall|j: int| 0 <= j < page.len() ==> (#[trigger] page[j]).0 != other) ==> (with_loaded(
            peers,
            page,
        ).contains_key(other) <==> peers.contains_key(other)) && with_loaded(peers, page)[other]
            == peers[other],
    decreases page.len(),
{
    let rest = page.drop_last();
    let last = page[page.len() - 1];
    assert forall|j: int, k: int| 0 <= j < k < rest.len() implies (#[trigger] rest[j]).0 != (
    #[trigger] rest[k]).0 by {
        assert(rest[j] == page[j] && rest[k] == page[k]);
    }
    if (forall|j: int| 0 <= j < page.len() ==> (#[trigger] page[j]).0 != other) {
        assert forall|j: int| 0 <= j < rest.len() implies (#[trigger] rest[j]).0 != other by {
            assert(rest[j] == page[j]);
        }
        assert(last.0 != other);
    }
    if i < rest.len() {
        assert(rest[i] == page[i]);
        stored_peers_are_taken_over(peers, rest, i, other);
        assert(page[i].0 != last.0);
    } else if rest.len() > 0 {
        stored_peers_are_taken_over(peers, rest, 0, other);
    }
}

/// A checkpoint keeps every peer, as it is written, and no other.
pub proof fn checkpoints_keep_every_peer(m: RouterModel, after: RouterModel, k: [u8; 16])
    requires
        is_checkpointed(m, after),
    ensures
        m.storage_authoritative && m.reliable ==> (after.storage.peers.contains_key(k)
            <==> m.peers.contains_key(k)) && (m.peers.contains_key(k) ==> after.storage.peers[k]
            == encoding(peer_element(m.peers[k]))),
        after == (RouterModel {
            storage: StorageModel { peers: after.storage.peers, ..m.storage },
            ..m
        }),
        !m.storage_authoritative ==> after == m,
{
}

/// What is no peer, or is kept under another hash than its own, is passed over.
pub proof fn broken_records_are_passed_over(
    peers: Map<[u8; 16], PeerModel>,
    page: Seq<([u8; 16], Seq<u8>)>,
    k: [u8; 16],
)
    requires
        forall|j: int|
            0 <= j < page.len() && (#[trigger] page[j]).0 == k ==> peer_in(page[j].1) is None
                || peer_in(page[j].1)->0.destination_hash != k,
    ensures
        with_loaded(peers, page).contains_key(k) == peers.contains_key(k),
        with_loaded(peers, page)[k] == peers[k],
    decreases page.len(),
{
    if page.len() > 0 {
        let front = page.drop_last();
        assert forall|j: int| 0 <= j < front.len() && (#[trigger] front[j]).0 == k implies peer_in(
            front[j].1,
        ) is None || peer_in(front[j].1)->0.destination_hash != k by {
            assert(page[j] == front[j]);
        }
        broken_records_are_passed_over(peers, front, k);
        assert(page[page.len() - 1] == page.last());
    }
}

/// The headroom is a tenth of the peers that there may be, and never less than one.
pub proof fn there_is_always_headroom(max_peers: usize)
    ensures
        headroom(max_peers) >= 1,
        max_peers >= 10 ==> headroom(max_peers) * 10 <= max_peers < headroom(max_peers) * 10 + 10,
        max_peers < 20 ==> headroom(max_peers) == 1,
{
}

/// The peers on a page are kept ones, each once and as it is kept, and as many as the limit and
/// what is kept allow.
pub proof fn kept_peers_are_paged(
    m: RouterModel,
    limit: usize,
    page: Seq<([u8; 16], Seq<u8>)>,
    i: int,
    j: int,
)
    requires
        is_peer_page(m, limit, page),
    ensures
        m.reliable ==> page.len() == (if m.storage.peers.len() <= limit {
            m.storage.peers.len()
        } else {
            limit as nat
        }),
        0 <= i < page.len() ==> m.storage.peers.contains_key(page[i].0)
            && m.storage.peers[page[i].0] == page[i].1,
        0 <= i < j < page.len() ==> page[i].0 != page[j].0,
{
}

/// A peer is untested until a sync with it was attempted.
pub proof fn peers_are_untested_until_a_sync(peers: Map<[u8; 16], PeerModel>, k: [u8; 16])
    ensures
        untested(peers).contains_key(k) <==> peers.contains_key(k) && peers[k].last_sync_attempt
            == 0,
        untested(peers).contains_key(k) ==> untested(peers)[k] == peers[k],
{
}

} // verus!
