//! Propagation peers: what a node knows of the nodes it synchronises with.

use vstd::prelude::*;

use crate::bytes::{lemma_fixed, list_add, to_fixed, to_vec};
use crate::constants::PeerState;
use crate::msgpack::{
    decode, encode, encoding, lemma_view, models, parsed, storable, Datum, Model, MAX_LENGTH,
    MAX_NESTING,
};
use crate::types::PropagationTransientId;

verus! {

/// The key that admits a node to a peer, and what it is worth.
#[derive(Debug, Clone, Copy)]
pub struct PeeringKey {
    pub key: [u8; 32],
    pub value: u32,
}

/// What is known of a peer.
#[verifier::ext_equal]
pub ghost struct PeerModel {
    pub destination_hash: [u8; 16],
    pub is_static: bool,
    pub alive: bool,
    pub state: PeerState,
    pub last_heard: i64,
    pub next_sync_attempt: i64,
    pub last_sync_attempt: i64,
    pub sync_backoff: i64,
    pub peering_timebase: u64,
    pub link_establishment_rate: u64,
    pub sync_transfer_rate: u64,
    pub propagation_transfer_limit: Option<u64>,
    pub propagation_sync_limit: Option<u64>,
    pub stamp_cost: Option<u8>,
    pub stamp_cost_flexibility: Option<u8>,
    pub peering_cost: u8,
    pub peering_key: Option<PeeringKey>,
    pub rx_bytes: u64,
    pub tx_bytes: u64,
    pub offered: u64,
    pub outgoing: u64,
    pub incoming: u64,
    pub unhandled: u32,
    pub handled_messages: Seq<PropagationTransientId>,
    pub currently_transferring_messages: Option<Seq<PropagationTransientId>>,
}

/// A propagation peer.  Instants are in microseconds; rates, limits and the timebase are
/// the bit patterns of numbers that are only passed on.
#[derive(Debug)]
pub struct LxmPeer {
    pub destination_hash: [u8; 16],
    pub is_static: bool,
    pub alive: bool,
    pub state: PeerState,
    pub last_heard: i64,
    /// From when on the peer is synchronised with again; zero for at once.
    pub next_sync_attempt: i64,
    /// When a sync was last attempted; zero for never.
    pub last_sync_attempt: i64,
    pub sync_backoff: i64,
    pub peering_timebase: u64,
    pub link_establishment_rate: u64,
    pub sync_transfer_rate: u64,
    pub propagation_transfer_limit: Option<u64>,
    pub propagation_sync_limit: Option<u64>,
    pub stamp_cost: Option<u8>,
    pub stamp_cost_flexibility: Option<u8>,
    pub peering_cost: u8,
    pub peering_key: Option<PeeringKey>,
    pub rx_bytes: u64,
    pub tx_bytes: u64,
    /// Messages that were offered to the peer.
    pub offered: u64,
    /// Messages that the peer took.
    pub outgoing: u64,
    /// Messages that the peer sent.
    pub incoming: u64,
    /// Messages that wait for the peer.
    pub unhandled: u32,
    /// Messages that the peer has.
    pub handled_messages: Vec<PropagationTransientId>,
    pub currently_transferring_messages: Option<Vec<PropagationTransientId>>,
}

/// The identifiers of an optional list.
pub open spec fn opt_ids(o: Option<Vec<PropagationTransientId>>) -> Option<
    Seq<PropagationTransientId>,
> {
    match o {
        Some(v) => Some(v@),
        None => None,
    }
}

impl View for LxmPeer {
    type V = PeerModel;

    open spec fn view(&self) -> PeerModel {
        PeerModel {
            destination_hash: self.destination_hash,
            is_static: self.is_static,
            alive: self.alive,
            state: self.state,
            last_heard: self.last_heard,
            next_sync_attempt: self.next_sync_attempt,
            last_sync_attempt: self.last_sync_attempt,
            sync_backoff: self.sync_backoff,
            peering_timebase: self.peering_timebase,
            link_establishment_rate: self.link_establishment_rate,
            sync_transfer_rate: self.sync_transfer_rate,
            propagation_transfer_limit: self.propagation_transfer_limit,
            propagation_sync_limit: self.propagation_sync_limit,
            stamp_cost: self.stamp_cost,
            stamp_cost_flexibility: self.stamp_cost_flexibility,
            peering_cost: self.peering_cost,
            peering_key: self.peering_key,
            rx_bytes: self.rx_bytes,
            tx_bytes: self.tx_bytes,
            offered: self.offered,
            outgoing: self.outgoing,
            incoming: self.incoming,
            unhandled: self.unhandled,
            handled_messages: self.handled_messages@,
            currently_transferring_messages: opt_ids(self.currently_transferring_messages),
        }
    }
}

/// A peer of which only the hash is known.
pub open spec fn new_peer(destination_hash: [u8; 16]) -> PeerModel {
    PeerModel {
        destination_hash,
        is_static: false,
        alive: true,
        state: PeerState::Idle,
        last_heard: 0,
        next_sync_attempt: 0,
        last_sync_attempt: 0,
        sync_backoff: 0,
        peering_timebase: 0,
        link_establishment_rate: 0,
        sync_transfer_rate: 0,
        propagation_transfer_limit: None,
        propagation_sync_limit: None,
        stamp_cost: None,
        stamp_cost_flexibility: None,
        peering_cost: 0,
        peering_key: None,
        rx_bytes: 0,
        tx_bytes: 0,
        offered: 0,
        outgoing: 0,
        incoming: 0,
        unhandled: 0,
        handled_messages: Seq::empty(),
        currently_transferring_messages: None,
    }
}

/// Whether a peer waits for a sync.
pub open spec fn is_sync_due(p: PeerModel, now: i64) -> bool {
    p.alive && p.state == PeerState::Idle && p.unhandled > 0 && p.next_sync_attempt <= now
}

/// Whether a peer took less than half of what it was offered.
pub open spec fn is_poor(p: PeerModel) -> bool {
    2 * p.outgoing < p.offered
}

impl LxmPeer {
    pub fn new(destination_hash: [u8; 16]) -> (p: Self)
        ensures
            p@ == new_peer(destination_hash),
    {
        let p = LxmPeer {
            destination_hash,
            is_static: false,
            alive: true,
            state: PeerState::Idle,
            last_heard: 0,
            next_sync_attempt: 0,
            last_sync_attempt: 0,
            sync_backoff: 0,
            peering_timebase: 0,
            link_establishment_rate: 0,
            sync_transfer_rate: 0,
            propagation_transfer_limit: None,
            propagation_sync_limit: None,
            stamp_cost: None,
            stamp_cost_flexibility: None,
            peering_cost: 0,
            peering_key: None,
            rx_bytes: 0,
            tx_bytes: 0,
            offered: 0,
            outgoing: 0,
            incoming: 0,
            unhandled: 0,
            handled_messages: Vec::new(),
            currently_transferring_messages: None,
        };
        assert(p@.handled_messages =~= Seq::empty());
        p
    }

    /// A peer as it announced itself.
    pub fn from_announce(
        destination_hash: [u8; 16],
        timebase: u64,
        transfer_limit: Option<u64>,
        sync_limit: Option<u64>,
        stamp_cost: Option<u8>,
        stamp_flexibility: Option<u8>,
        peering_cost: Option<u8>,
    ) -> (p: Self)
        ensures
            p@ == (PeerModel {
                peering_timebase: timebase,
                propagation_transfer_limit: transfer_limit,
                propagation_sync_limit: sync_limit,
                stamp_cost,
                stamp_cost_flexibility: stamp_flexibility,
                peering_cost: match peering_cost {
                    Some(c) => c,
                    None => 0,
                },
                ..new_peer(destination_hash)
            }),
    {
        let mut p = LxmPeer::new(destination_hash);
        p.peering_timebase = timebase;
        p.propagation_transfer_limit = transfer_limit;
        p.propagation_sync_limit = sync_limit;
        p.stamp_cost = stamp_cost;
        p.stamp_cost_flexibility = stamp_flexibility;
        p.peering_cost = match peering_cost {
            Some(c) => c,
            None => 0,
        };
        p
    }

    /// Notes that the peer was heard.
    pub fn heard(&mut self, now: i64)
        ensures
            final(self)@ == (PeerModel { last_heard: now, alive: true, ..old(self)@ }),
    {
        self.last_heard = now;
        self.alive = true;
    }

    /// Notes that a sync with the peer begins.
    pub fn begin_sync(&mut self, now: i64)
        ensures
            final(self)@ == (PeerModel {
                state: PeerState::LinkEstablishing,
                last_sync_attempt: now,
                ..old(self)@
            }),
    {
        self.state = PeerState::LinkEstablishing;
        self.last_sync_attempt = now;
    }

    /// Notes that a sync with the peer is done.
    pub fn sync_complete(&mut self)
        ensures
            final(self)@ == (PeerModel {
                state: PeerState::Idle,
                sync_backoff: 0,
                next_sync_attempt: 0,
                ..old(self)@
            }),
    {
        self.state = PeerState::Idle;
        self.sync_backoff = 0;
        self.next_sync_attempt = 0;
    }

    /// Notes that a sync with the peer failed.
    pub fn sync_failed(&mut self)
        ensures
            final(self)@ == (PeerModel { state: PeerState::Idle, ..old(self)@ }),
    {
        self.state = PeerState::Idle;
    }

    /// Notes that one more message waits for the peer.
    pub fn add_unhandled_message(&mut self)
        ensures
            final(self)@ == (PeerModel {
                unhandled: if old(self)@.unhandled < u32::MAX {
                    (old(self)@.unhandled + 1) as u32
                } else {
                    u32::MAX
                },
                ..old(self)@
            }),
    {
        self.unhandled = self.unhandled.saturating_add(1);
    }

    /// Notes that the peer has a message.
    pub fn add_handled_message(&mut self, transient_id: &PropagationTransientId)
        ensures
            final(self)@ == (PeerModel {
                handled_messages: if old(self)@.handled_messages.contains(*transient_id) {
                    old(self)@.handled_messages
                } else {
                    old(self)@.handled_messages.push(*transient_id)
                },
                ..old(self)@
            }),
    {
        list_add(&mut self.handled_messages, *transient_id);
    }

    /// How many messages wait for the peer.
    pub fn unhandled_messages(&self) -> (n: u32)
        ensures
            n == self@.unhandled,
    {
        self.unhandled
    }

    /// Whether the time for the next sync has come.
    pub fn should_sync(&self, now: i64) -> (b: bool)
        ensures
            b == (self@.next_sync_attempt <= now),
    {
        self.next_sync_attempt <= now
    }
}

// ---------------------------------------------------------------------------
// Peers in storage.
// ---------------------------------------------------------------------------

/// The value that an optional number is written as.
pub open spec fn number_element(o: Option<u64>) -> Model {
    match o {
        Some(bits) => Model::Float64(bits),
        None => Model::Nil,
    }
}

/// The value that an optional cost is written as.
pub open spec fn cost_element(o: Option<u8>) -> Model {
    match o {
        Some(c) => Model::Integer(c as int),
        None => Model::Nil,
    }
}

/// The value that a peering key is written as.
pub open spec fn key_element(o: Option<PeeringKey>) -> Model {
    match o {
        Some(k) => Model::Array(seq![Model::Binary(k.key@), Model::Integer(k.value as int)]),
        None => Model::Nil,
    }
}

/// The value that a list of identifiers is written as.
pub open spec fn ids_element(ids: Seq<PropagationTransientId>) -> Model {
    Model::Array(Seq::new(ids.len(), |i: int| Model::Binary(ids[i]@)))
}

/// The values that a peer is written as.  A sync that is under way is not kept.
pub open spec fn peer_values(p: PeerModel) -> Seq<Model> {
    seq![
        Model::Binary(p.destination_hash@),
        Model::Boolean(p.is_static),
        Model::Boolean(p.alive),
        Model::Integer(p.last_heard as int),
        Model::Integer(p.next_sync_attempt as int),
        Model::Integer(p.last_sync_attempt as int),
        Model::Integer(p.sync_backoff as int),
        Model::Float64(p.peering_timebase),
        Model::Float64(p.link_establishment_rate),
        Model::Float64(p.sync_transfer_rate),
        number_element(p.propagation_transfer_limit),
        number_element(p.propagation_sync_limit),
        cost_element(p.stamp_cost),
        cost_element(p.stamp_cost_flexibility),
        Model::Integer(p.peering_cost as int),
        key_element(p.peering_key),
        Model::Integer(p.rx_bytes as int),
        Model::Integer(p.tx_bytes as int),
        Model::Integer(p.offered as int),
        Model::Integer(p.outgoing as int),
        Model::Integer(p.incoming as int),
        Model::Integer(p.unhandled as int),
        ids_element(p.handled_messages),
    ]
}

/// The value that a peer is written as.
pub open spec fn peer_element(p: PeerModel) -> Model {
    Model::Array(peer_values(p))
}

/// Whether some bytes hold a peer.
pub open spec fn is_peer(data: Seq<u8>, p: PeerModel) -> bool {
    parsed(data) matches Some((m, _)) && m == peer_element(p) && p.state == PeerState::Idle
        && p.currently_transferring_messages is None
}

/// A peer as it is kept.
pub open spec fn at_rest(p: PeerModel) -> PeerModel {
    PeerModel { state: PeerState::Idle, currently_transferring_messages: None, ..p }
}

fn signed(n: i64) -> (d: Datum)
    ensures
        d@ == Model::Integer(n as int),
{
    if n >= 0 {
        Datum::Unsigned(n as u64)
    } else {
        Datum::Negative(n)
    }
}

fn number_datum(o: Option<u64>) -> (d: Datum)
    ensures
        d@ == number_element(o),
{
    match o {
        Some(bits) => Datum::Float64(bits),
        None => Datum::Nil,
    }
}

fn cost_datum(o: Option<u8>) -> (d: Datum)
    ensures
        d@ == cost_element(o),
{
    match o {
        Some(c) => Datum::Unsigned(c as u64),
        None => Datum::Nil,
    }
}

fn key_datum(o: &Option<PeeringKey>) -> (d: Datum)
    ensures
        d@ == key_element(*o),
{
    match o {
        Some(k) => {
            let mut items: Vec<Datum> = Vec::new();
            items.push(Datum::Binary(to_vec(&k.key)));
            items.push(Datum::Unsigned(k.value as u64));
            let d = Datum::Array(items);
            proof {
                lemma_view(&d);
                assert(models(items@) =~= key_element(*o)->Array_0);
            }
            d
        },
        None => Datum::Nil,
    }
}

fn ids_datum(ids: &Vec<PropagationTransientId>) -> (d: Datum)
    ensures
        d@ == ids_element(ids@),
{
    let mut items: Vec<Datum> = Vec::new();
    let mut i: usize = 0;
    while i < ids.len()
        invariant
            i <= ids@.len(),
            items@.len() == i,
            forall|j: int| 0 <= j < i ==> (#[trigger] items@[j])@ == Model::Binary(ids@[j]@),
        decreases ids@.len() - i,
    {
        items.push(Datum::Binary(to_vec(&ids[i])));
        i = i + 1;
    }
    let d = Datum::Array(items);
    proof {
        lemma_view(&d);
        assert(models(items@) =~= ids_element(ids@)->Array_0);
    }
    d
}

fn read_signed(d: &Datum) -> (r: Option<i64>)
    ensures
        r matches Some(n) ==> d@ == Model::Integer(n as int),
        r is None ==> forall|n: i64| d@ != Model::Integer(n as int),
{
    match d {
        Datum::Unsigned(n) => if *n <= i64::MAX as u64 {
            Some(*n as i64)
        } else {
            None
        },
        Datum::Negative(n) => Some(*n),
        _ => None,
    }
}

fn read_unsigned(d: &Datum) -> (r: Option<u64>)
    ensures
        r matches Some(n) ==> d@ == Model::Integer(n as int),
        r is None ==> forall|n: u64| d@ != Model::Integer(n as int),
{
    match d {
        Datum::Unsigned(n) => Some(*n),
        Datum::Negative(n) => if *n >= 0 {
            Some(*n as u64)
        } else {
            None
        },
        _ => None,
    }
}

fn read_bits(d: &Datum) -> (r: Option<u64>)
    ensures
        r matches Some(n) ==> d@ == Model::Float64(n),
        r is None ==> forall|n: u64| d@ != Model::Float64(n),
{
    match d {
        Datum::Float64(bits) => Some(*bits),
        _ => None,
    }
}

fn read_flag(d: &Datum) -> (r: Option<bool>)
    ensures
        r matches Some(b) ==> d@ == Model::Boolean(b),
        r is None ==> forall|b: bool| d@ != Model::Boolean(b),
{
    match d {
        Datum::Boolean(b) => Some(*b),
        _ => None,
    }
}

fn read_number(d: &Datum) -> (r: Option<Option<u64>>)
    ensures
        r matches Some(o) ==> d@ == number_element(o),
        r is None ==> forall|o: Option<u64>| d@ != #[trigger] number_element(o),
{
    match d {
        Datum::Nil => Some(None),
        Datum::Float64(bits) => Some(Some(*bits)),
        _ => None,
    }
}

fn read_cost(d: &Datum) -> (r: Option<Option<u8>>)
    ensures
        r matches Some(o) ==> d@ == cost_element(o),
        r is None ==> forall|o: Option<u8>| d@ != #[trigger] cost_element(o),
{
    match d {
        Datum::Nil => Some(None),
        _ => match read_unsigned(d) {
            Some(n) => if n <= 255 {
                Some(Some(n as u8))
            } else {
                None
            },
            None => None,
        },
    }
}

fn read_key(d: &Datum) -> (r: Option<Option<PeeringKey>>)
    ensures
        r matches Some(o) ==> d@ == key_element(o),
        r is None ==> forall|o: Option<PeeringKey>| d@ != #[trigger] key_element(o),
{
    proof {
        lemma_view(d);
    }
    match d {
        Datum::Nil => Some(None),
        Datum::Array(items) => {
            let ghost s = models(items@);
            proof {
                assert forall|o: Option<PeeringKey>| d@ == #[trigger] key_element(o) implies o is Some
                    && s.len() == 2 && s[0] == Model::Binary(o->0.key@) && s[1] == Model::Integer(
                    o->0.value as int,
                ) by {
                    if o is Some {
                        let t = key_element(o)->Array_0;
                        assert(s == t);
                    }
                }
            }
            if items.len() != 2 {
                return None;
            }
            assert(s[0] == items@[0]@ && s[1] == items@[1]@);
            let key: Option<[u8; 32]> = match &items[0] {
                Datum::Binary(b) => to_fixed(b.as_slice()),
                _ => None,
            };
            match (key, read_unsigned(&items[1])) {
                (Some(key), Some(n)) => {
                    if n <= u32::MAX as u64 {
                        let k = PeeringKey { key, value: n as u32 };
                        assert(s =~= key_element(Some(k))->Array_0);
                        Some(Some(k))
                    } else {
                        None
                    }
                },
                _ => None,
            }
        },
        _ => None,
    }
}

fn read_ids(d: &Datum) -> (r: Option<Vec<PropagationTransientId>>)
    ensures
        r matches Some(ids) ==> d@ == ids_element(ids@),
        r is None ==> forall|ids: Seq<PropagationTransientId>| d@ != #[trigger] ids_element(ids),
{
    proof {
        lemma_view(d);
    }
    match d {
        Datum::Array(items) => {
            let ghost s = models(items@);
            let mut ids: Vec<PropagationTransientId> = Vec::new();
            let mut i: usize = 0;
            while i < items.len()
                invariant
                    i <= items@.len(),
                    ids@.len() == i,
                    s == models(items@),
                    d@ == Model::Array(s),
                    forall|j: int| 0 <= j < i ==> s[j] == Model::Binary((#[trigger] ids@[j])@),
                decreases items@.len() - i,
            {
                assert(s[i as int] == items@[i as int]@);
                let id: Option<[u8; 32]> = match &items[i] {
                    Datum::Binary(b) => to_fixed(b.as_slice()),
                    _ => None,
                };
                match id {
                    Some(k) => ids.push(k),
                    None => {
                        proof {
                            assert forall|all: Seq<PropagationTransientId>| d@
                                != #[trigger] ids_element(all) by {
                                if d@ == ids_element(all) {
                                    assert(ids_element(all)->Array_0 == s);
                                    assert(s[i as int] == Model::Binary(all[i as int]@));
                                }
                            }
                        }
                        return None;
                    },
                }
                i = i + 1;
            }
            assert(s =~= ids_element(ids@)->Array_0);
            Some(ids)
        },
        _ => None,
    }
}

/// Two peers that are written alike are kept alike.
proof fn lemma_peer_element(a: PeerModel, b: PeerModel)
    requires
        peer_element(a) == peer_element(b),
    ensures
        at_rest(a) == at_rest(b),
{
    let s = peer_values(a);
    let t = peer_values(b);
    assert(s == t);
    assert forall|i: int| 0 <= i < 23 implies s[i] == t[i] by {}
    assert(s[0] == t[0] && s[1] == t[1] && s[2] == t[2] && s[3] == t[3] && s[4] == t[4] && s[5]
        == t[5] && s[6] == t[6] && s[7] == t[7] && s[8] == t[8] && s[9] == t[9]);
    assert(s[10] == t[10] && s[11] == t[11] && s[12] == t[12] && s[13] == t[13] && s[14] == t[14]
        && s[15] == t[15] && s[16] == t[16] && s[17] == t[17] && s[18] == t[18] && s[19] == t[19]
        && s[20] == t[20] && s[21] == t[21] && s[22] == t[22]);
    lemma_fixed(a.destination_hash);
    lemma_fixed(b.destination_hash);
    if a.peering_key is Some {
        let x = key_element(a.peering_key)->Array_0;
        let y = key_element(b.peering_key)->Array_0;
        assert(x == y);
        assert(x[0] == y[0] && x[1] == y[1]);
        lemma_fixed(a.peering_key->0.key);
        lemma_fixed(b.peering_key->0.key);
    }
    let x = ids_element(a.handled_messages)->Array_0;
    let y = ids_element(b.handled_messages)->Array_0;
    assert(x == y);
    assert(a.handled_messages.len() == x.len());
    assert forall|i: int| 0 <= i < x.len() implies a.handled_messages[i]
        == b.handled_messages[i] by {
        assert(x[i] == y[i]);
        lemma_fixed(a.handled_messages[i]);
        lemma_fixed(b.handled_messages[i]);
    }
    assert(a.handled_messages =~= b.handled_messages);
}

/// Whether the handled messages of a peer are no more than can be written.
pub open spec fn fits_storage(p: PeerModel) -> bool {
    p.handled_messages.len() <= MAX_LENGTH
}

proof fn lemma_peer_storable(p: PeerModel)
    requires
        fits_storage(p),
    ensures
        storable(peer_element(p), MAX_NESTING as nat),
{
    let s = peer_values(p);
    let ids = ids_element(p.handled_messages)->Array_0;
    assert forall|i: int| 0 <= i < ids.len() implies storable(
        #[trigger] ids[i],
        (MAX_NESTING - 2) as nat,
    ) by {
        assert(ids[i] == Model::Binary(p.handled_messages[i]@));
    }
    if p.peering_key is Some {
        let k = key_element(p.peering_key)->Array_0;
        assert forall|i: int| 0 <= i < k.len() implies storable(
            #[trigger] k[i],
            (MAX_NESTING - 2) as nat,
        ) by {
            assert(i == 0 || i == 1);
        }
    }
    assert forall|i: int| 0 <= i < s.len() implies storable(
        #[trigger] s[i],
        (MAX_NESTING - 1) as nat,
    ) by {
        assert(s[15] == key_element(p.peering_key));
        assert(s[22] == ids_element(p.handled_messages));
        assert(i == 0 || i == 1 || i == 2 || i == 3 || i == 4 || i == 5 || i == 6 || i == 7 || i
            == 8 || i == 9 || i == 10 || i == 11 || i == 12 || i == 13 || i == 14 || i == 15 || i
            == 16 || i == 17 || i == 18 || i == 19 || i == 20 || i == 21 || i == 22);
    }
}

impl LxmPeer {
    /// The peer as it is kept, with the messages that it has.
    pub fn to_bytes_with_handled(&self) -> (data: Vec<u8>)
        ensures
            data@ == encoding(peer_element(self@)),
            fits_storage(self@) ==> is_peer(data@, at_rest(self@)),
    {
        let mut items: Vec<Datum> = Vec::new();
        items.push(Datum::Binary(to_vec(&self.destination_hash)));
        items.push(Datum::Boolean(self.is_static));
        items.push(Datum::Boolean(self.alive));
        items.push(signed(self.last_heard));
        items.push(signed(self.next_sync_attempt));
        items.push(signed(self.last_sync_attempt));
        items.push(signed(self.sync_backoff));
        items.push(Datum::Float64(self.peering_timebase));
        items.push(Datum::Float64(self.link_establishment_rate));
        items.push(Datum::Float64(self.sync_transfer_rate));
        items.push(number_datum(self.propagation_transfer_limit));
        items.push(number_datum(self.propagation_sync_limit));
        items.push(cost_datum(self.stamp_cost));
        items.push(cost_datum(self.stamp_cost_flexibility));
        items.push(Datum::Unsigned(self.peering_cost as u64));
        items.push(key_datum(&self.peering_key));
        items.push(Datum::Unsigned(self.rx_bytes));
        items.push(Datum::Unsigned(self.tx_bytes));
        items.push(Datum::Unsigned(self.offered));
        items.push(Datum::Unsigned(self.outgoing));
        items.push(Datum::Unsigned(self.incoming));
        items.push(Datum::Unsigned(self.unhandled as u64));
        items.push(ids_datum(&self.handled_messages));
        let value = Datum::Array(items);
        proof {
            lemma_view(&value);
            assert(models(items@) =~= peer_values(self@));
            if fits_storage(self@) {
                lemma_peer_storable(self@);
                assert(peer_values(at_rest(self@)) =~= peer_values(self@));
            }
        }
        encode(&value)
    }

    /// The peer that some bytes hold.
    #[verifier::rlimit(40)]
    pub fn from_bytes_with_handled(data: &[u8]) -> (r: Option<LxmPeer>)
        ensures
            r matches Some(p) ==> is_peer(data@, p@),
            r is None ==> forall|p: PeerModel| !is_peer(data@, p),
    {
        let value = match decode(data) {
            Some((v, _)) => v,
            None => {
                return None;
            },
        };
        let ghost m = value@;
        proof {
            lemma_view(&value);
        }
        let items = match value {
            Datum::Array(items) => items,
            _ => {
                return None;
            },
        };
        let ghost s = models(items@);
        assert(m == Model::Array(s));
        if items.len() != 23 {
            assert forall|p: PeerModel| !is_peer(data@, p) by {
                assert(peer_values(p).len() == 23);
            }
            return None;
        }
        let r = LxmPeer::from_items(&items);
        proof {
            if r is None {
                assert forall|p: PeerModel| !is_peer(data@, p) by {
                    if is_peer(data@, p) {
                        assert(s == peer_values(p));
                    }
                }
            }
        }
        r
    }

    #[verifier::rlimit(40)]
    fn from_items(items: &Vec<Datum>) -> (r: Option<LxmPeer>)
        requires
            items@.len() == 23,
        ensures
            r matches Some(p) ==> models(items@) == peer_values(p@) && p@ == at_rest(p@),
            r is None ==> forall|p: PeerModel| models(items@) != #[trigger] peer_values(p),
    {
        let ghost s = models(items@);
        let destination: Option<[u8; 16]> = match &items[0] {
            Datum::Binary(b) => to_fixed(b.as_slice()),
            _ => None,
        };
        let a = (destination, read_flag(&items[1]), read_flag(&items[2]));
        let b = (
            read_signed(&items[3]),
            read_signed(&items[4]),
            read_signed(&items[5]),
            read_signed(&items[6]),
        );
        let c = (read_bits(&items[7]), read_bits(&items[8]), read_bits(&items[9]));
        let d = (
            read_number(&items[10]),
            read_number(&items[11]),
            read_cost(&items[12]),
            read_cost(&items[13]),
        );
        let e = (read_unsigned(&items[14]), read_key(&items[15]));
        let f = (read_unsigned(&items[16]), read_unsigned(&items[17]));
        let g = (read_unsigned(&items[18]), read_unsigned(&items[19]), read_unsigned(&items[20]));
        let h = (read_unsigned(&items[21]), read_ids(&items[22]));
        proof {
            assert(s[0] == items@[0]@ && s[1] == items@[1]@ && s[2] == items@[2]@ && s[3]
                == items@[3]@ && s[4] == items@[4]@ && s[5] == items@[5]@ && s[6] == items@[6]@
                && s[7] == items@[7]@ && s[8] == items@[8]@ && s[9] == items@[9]@);
            assert(s[10] == items@[10]@ && s[11] == items@[11]@ && s[12] == items@[12]@ && s[13]
                == items@[13]@ && s[14] == items@[14]@ && s[15] == items@[15]@ && s[16]
                == items@[16]@ && s[17] == items@[17]@ && s[18] == items@[18]@ && s[19]
                == items@[19]@ && s[20] == items@[20]@ && s[21] == items@[21]@ && s[22]
                == items@[22]@);
        }
        if let (Some(destination_hash), Some(is_static), Some(alive)) = a {
            if let (
                Some(last_heard),
                Some(next_sync_attempt),
                Some(last_sync_attempt),
                Some(sync_backoff),
            ) = b {
                if let (Some(timebase), Some(link_rate), Some(sync_rate)) = c {
                    if let (Some(transfer), Some(sync), Some(cost), Some(flex)) = d {
                        if let (Some(peering_cost), Some(peering_key)) = e {
                            if let (Some(rx_bytes), Some(tx_bytes)) = f {
                                if let (Some(offered), Some(outgoing), Some(incoming)) = g {
                                    if let (Some(unhandled), Some(handled_messages)) = h {
                                        if peering_cost <= 255 && unhandled <= u32::MAX as u64 {
                                            let p = LxmPeer {
                                                destination_hash,
                                                is_static,
                                                alive,
                                                state: PeerState::Idle,
                                                last_heard,
                                                next_sync_attempt,
                                                last_sync_attempt,
                                                sync_backoff,
                                                peering_timebase: timebase,
                                                link_establishment_rate: link_rate,
                                                sync_transfer_rate: sync_rate,
                                                propagation_transfer_limit: transfer,
                                                propagation_sync_limit: sync,
                                                stamp_cost: cost,
                                                stamp_cost_flexibility: flex,
                                                peering_cost: peering_cost as u8,
                                                peering_key,
                                                rx_bytes,
                                                tx_bytes,
                                                offered,
                                                outgoing,
                                                incoming,
                                                unhandled: unhandled as u32,
                                                handled_messages,
                                                currently_transferring_messages: None,
                                            };
                                            assert(s =~= peer_values(p@));
                                            return Some(p);
                                        }
                                    }
                                }
                            }
                        }
                    }
                }
            }
        }
        proof {
            assert forall|p: PeerModel| s != #[trigger] peer_values(p) by {
                let t = peer_values(p);
                if s == t {
                    assert(t[0] == Model::Binary(p.destination_hash@));
                    assert(t[1] == Model::Boolean(p.is_static) && t[2] == Model::Boolean(p.alive));
                    assert(t[3] == Model::Integer(p.last_heard as int));
                    assert(t[4] == Model::Integer(p.next_sync_attempt as int));
                    assert(t[5] == Model::Integer(p.last_sync_attempt as int));
                    assert(t[6] == Model::Integer(p.sync_backoff as int));
                    assert(t[7] == Model::Float64(p.peering_timebase));
                    assert(t[8] == Model::Float64(p.link_establishment_rate));
                    assert(t[9] == Model::Float64(p.sync_transfer_rate));
                    assert(t[10] == number_element(p.propagation_transfer_limit));
                    assert(t[11] == number_element(p.propagation_sync_limit));
                    assert(t[12] == cost_element(p.stamp_cost));
                    assert(t[13] == cost_element(p.stamp_cost_flexibility));
                    assert(t[14] == Model::Integer(p.peering_cost as int));
                    assert(t[15] == key_element(p.peering_key));
                    assert(t[16] == Model::Integer(p.rx_bytes as int));
                    assert(t[17] == Model::Integer(p.tx_bytes as int));
                    assert(t[18] == Model::Integer(p.offered as int));
                    assert(t[19] == Model::Integer(p.outgoing as int));
                    assert(t[20] == Model::Integer(p.incoming as int));
                    assert(t[21] == Model::Integer(p.unhandled as int));
                    assert(t[22] == ids_element(p.handled_messages));
                }
            }
        }
        None
    }
}

/// A peer that is read from the bytes of another is that peer, at rest.
pub proof fn peer_reads_back(data: Seq<u8>, p: PeerModel, q: PeerModel)
    requires
        is_peer(data, at_rest(p)),
        is_peer(data, q),
    ensures
        q == at_rest(p),
{
    lemma_peer_element(at_rest(p), q);
}

// ---------------------------------------------------------------------------
// What is known of a peer.
// ---------------------------------------------------------------------------

/// A peer of which only the hash is known is alive and idle, and nothing was exchanged with it.
pub proof fn peers_start_out_idle(destination_hash: [u8; 16])
    ensures
        ({
            let p = new_peer(destination_hash);
            &&& p.destination_hash == destination_hash
            &&& p.alive
            &&& !p.is_static
            &&& p.state == PeerState::Idle
            &&& p.last_heard == 0
            &&& p.next_sync_attempt == 0
            &&& p.last_sync_attempt == 0
            &&& p.sync_backoff == 0
            &&& p.stamp_cost is None
            &&& p.stamp_cost_flexibility is None
            &&& p.propagation_transfer_limit is None
            &&& p.propagation_sync_limit is None
            &&& p.peering_cost == 0
            &&& p.peering_key is None
            &&& p.rx_bytes == 0 && p.tx_bytes == 0
            &&& p.offered == 0 && p.outgoing == 0 && p.incoming == 0
            &&& p.unhandled == 0
            &&& p.handled_messages.len() == 0
            &&& p.currently_transferring_messages is None
            &&& !is_poor(p)
        }),
        forall|now: i64| !#[trigger] is_sync_due(new_peer(destination_hash), now),
{
}

/// A sync is due with a peer that is alive and idle, for which messages wait, once its time has
/// come; and a peer is poor that left more than half of what it was offered.
pub proof fn peers_are_judged_by_what_they_take(p: PeerModel, now: i64)
    ensures
        is_sync_due(p, now) <==> p.alive && p.state == PeerState::Idle && p.unhandled != 0 && now
            >= p.next_sync_attempt,
        is_poor(p) <==> p.offered - p.outgoing > p.outgoing,
{
}

/// Two peers that are written the same are the same at rest: everything that is known of a peer
/// is kept, but for a sync that is under way.
pub proof fn nothing_known_of_a_peer_is_lost(p: PeerModel, q: PeerModel)
    requires
        peer_element(p) == peer_element(q),
    ensures
        at_rest(p) == at_rest(q),
{
    lemma_peer_element(p, q);
}

/// At rest, a peer is idle and transfers nothing, and everything else is as it was; what is
/// written of a peer is what is written of it at rest.
pub proof fn peers_come_to_rest(p: PeerModel)
    ensures
        at_rest(p).state == PeerState::Idle,
        at_rest(p).currently_transferring_messages is None,
        p == (PeerModel {
            state: p.state,
            currently_transferring_messages: p.currently_transferring_messages,
            ..at_rest(p)
        }),
        peer_element(at_rest(p)) == peer_element(p),
        at_rest(at_rest(p)) == at_rest(p),
{
}

} // verus!
