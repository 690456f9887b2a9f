//! What a router hands to the network: packets, and what its node announces.

use vstd::prelude::*;
use vstd::utf8::encode_utf8;

use crate::bytes::copy_slice;
use crate::message::{is_packable, MessageError};
use crate::propagated::hidden_part;
use crate::router::jobs::is_turn;
use crate::router::outbound::{action_models, ActionModel, OutboundAction};
use crate::router::stamps::{DeferredStampJob, DeferredStampResult};
use crate::router::{LxmRouter, RouterConfig, RouterModel};
use crate::storage::LxmfStorage;

verus! {

/// A packet: where it goes, and what it holds.
pub type Packet = ([u8; 16], Vec<u8>);

/// What is encrypted for an action, and for whom; nothing where no packet is sent for it.
pub open spec fn plaintext_of(a: ActionModel) -> Option<([u8; 16], Seq<u8>)> {
    match a {
        ActionModel::DeliverOpportunistic { message, dest_hash } => if is_packable(message) {
            Some((dest_hash, hidden_part(message)))
        } else {
            None
        },
        _ => None,
    }
}

/// Whether an encryptor may answer some bytes for a destination with `outcome`.
pub open spec fn encrypts<F: Fn([u8; 16], &[u8]) -> Result<Vec<u8>, MessageError>>(
    f: F,
    destination: [u8; 16],
    plaintext: Seq<u8>,
    outcome: Result<Vec<u8>, MessageError>,
) -> bool {
    exists|s: &[u8]| s@ == plaintext && #[trigger] call_ensures(f, (destination, s), outcome)
}

/// Whether an encryptor may refuse some bytes for a destination.
pub open spec fn refuses<F: Fn([u8; 16], &[u8]) -> Result<Vec<u8>, MessageError>>(
    f: F,
    destination: [u8; 16],
    plaintext: Seq<u8>,
) -> bool {
    exists|e: MessageError| #[trigger] encrypts(f, destination, plaintext, Err(e))
}

/// Whether `packets` are sent for some actions: one, in order, for each that fits a packet
/// and was encrypted.
pub open spec fn sends<F: Fn([u8; 16], &[u8]) -> Result<Vec<u8>, MessageError>>(
    actions: Seq<ActionModel>,
    f: F,
    packets: Seq<Packet>,
) -> bool
    decreases actions.len(),
{
    if actions.len() == 0 {
        packets.len() == 0
    } else {
        match plaintext_of(actions.last()) {
            None => sends(actions.drop_last(), f, packets),
            Some((destination, plaintext)) => {
                ||| packets.len() > 0 && packets.last().0 == destination && encrypts(
                    f,
                    destination,
                    plaintext,
                    Ok(packets.last().1),
                ) && sends(actions.drop_last(), f, packets.drop_last())
                ||| refuses(f, destination, plaintext) && sends(actions.drop_last(), f, packets)
            },
        }
    }
}

/// Whether a packet is what an encryptor made for an action.
pub open spec fn is_packet_for<F: Fn([u8; 16], &[u8]) -> Result<Vec<u8>, MessageError>>(
    a: ActionModel,
    f: F,
    p: Packet,
) -> bool {
    match plaintext_of(a) {
        Some((destination, plaintext)) => p.0 == destination && encrypts(
            f,
            destination,
            plaintext,
            Ok(p.1),
        ),
        None => false,
    }
}

/// What a propagation node announces of itself.
#[derive(Debug)]
pub struct PropagationNodeAnnounceData {
    pub legacy: bool,
    /// Whether the node takes part.
    pub node_state: bool,
    /// When it is announced, in seconds.
    pub timebase: i64,
    pub transfer_limit: u64,
    pub sync_limit: u64,
    pub stamp_cost: u8,
    pub stamp_flex: u8,
    pub peering_cost: u8,
    pub metadata: Vec<(u8, Vec<u8>)>,
}

/// The key of the name in what a node announces.
pub const METADATA_NAME: u8 = 0;

/// Whether a list holds the name of a node and nothing else.
pub open spec fn holds_name(list: Seq<(u8, Vec<u8>)>, name: Option<String>) -> bool {
    match name {
        Some(n) => list.len() == 1 && list[0].0 == METADATA_NAME && list[0].1@ == encode_utf8(n@),
        None => list.len() == 0,
    }
}

/// Whether a router with this configuration announces `d`.
pub open spec fn announces(c: RouterConfig, now: i64, d: PropagationNodeAnnounceData) -> bool {
    &&& !d.legacy
    &&& d.node_state == (c.propagation_enabled && !c.ext.from_static_only)
    &&& d.timebase == now
    &&& d.transfer_limit == c.propagation_limit_kb
    &&& d.sync_limit == c.sync_limit_kb
    &&& d.stamp_cost == c.propagation_stamp_cost
    &&& d.stamp_flex == c.propagation_stamp_flex
    &&& d.peering_cost == c.ext.peering_cost
    &&& holds_name(d.metadata@, c.ext.name)
}

impl<S: LxmfStorage> LxmRouter<S> {
    /// The packet for one action, where there is one.
    fn packet_for<F>(action: &OutboundAction, encrypt_fn: &F) -> (r: Option<Packet>) where
        F: Fn([u8; 16], &[u8]) -> Result<Vec<u8>, MessageError>,

        requires
            forall|d: [u8; 16], s: &[u8]| call_requires(*encrypt_fn, (d, s)),
        ensures
            match plaintext_of(action@) {
                None => r is None,
                Some((destination, plaintext)) => match r {
                    Some(p) => p.0 == destination && encrypts(
                        *encrypt_fn,
                        destination,
                        plaintext,
                        Ok(p.1),
                    ),
                    None => refuses(*encrypt_fn, destination, plaintext),
                },
            },
    {
        match action {
            OutboundAction::DeliverOpportunistic { message, dest_hash } => {
                let to: [u8; 16] = *dest_hash;
                let encrypt = |s: &[u8]| -> (r: Result<Vec<u8>, MessageError>)
                    ensures
                        call_ensures(*encrypt_fn, (to, s), r),
                    { encrypt_fn(to, s) };
                match message.pack_opportunistic_encrypted(encrypt) {
                    Ok(data) => {
                        let p = (to, data);
                        assert(encrypts(*encrypt_fn, to, hidden_part(message@), Ok(p.1)));
                        Some(p)
                    },
                    Err(e) => {
                        proof {
                            if is_packable(message@) {
                                assert(encrypts(*encrypt_fn, to, hidden_part(message@), Err(e)));
                            }
                        }
                        None
                    },
                }
            },
            _ => None,
        }
    }

    /// The packets that carry out some actions: those of the messages that fit a packet,
    /// encrypted for their destinations.  What takes a link is left to others.
    pub fn execute_actions_with_encryptor<F>(
        &self,
        actions: &Vec<OutboundAction>,
        encrypt_fn: F,
    ) -> (packets: Vec<Packet>) where F: Fn([u8; 16], &[u8]) -> Result<Vec<u8>, MessageError>
        requires
            forall|d: [u8; 16], s: &[u8]| call_requires(encrypt_fn, (d, s)),
        ensures
            sends(action_models(actions@), encrypt_fn, packets@),
    {
        let ghost all = action_models(actions@);
        let mut packets: Vec<Packet> = Vec::new();
        let mut i: usize = 0;
        while i < actions.len()
            invariant
                i <= actions@.len(),
                all == action_models(actions@),
                forall|d: [u8; 16], s: &[u8]| call_requires(encrypt_fn, (d, s)),
                sends(all.take(i as int), encrypt_fn, packets@),
            decreases actions@.len() - i,
        {
            let ghost before = packets@;
            proof {
                assert(all.take(i + 1).drop_last() =~= all.take(i as int));
                assert(all.take(i + 1).last() == actions@[i as int]@);
            }
            match Self::packet_for(&actions[i], &encrypt_fn) {
                Some(p) => {
                    packets.push(p);
                    assert(packets@.drop_last() =~= before);
                },
                None => {},
            }
            i = i + 1;
        }
        assert(all.take(i as int) =~= all);
        packets
    }

    /// One turn in which the messages that fit a packet are encrypted.
    pub fn tick_with_encryptor<G, F>(
        &mut self,
        now: i64,
        result: DeferredStampResult,
        can_start: bool,
        generate: G,
        encrypt_fn: F,
    ) -> (r: (Option<DeferredStampJob>, Vec<OutboundAction>, Vec<Packet>)) where
        G: FnOnce(&[u8; 32], u8) -> Option<([u8; 32], u32)>,
        F: Fn([u8; 16], &[u8]) -> Result<Vec<u8>, MessageError>,

        requires
            forall|id: &[u8; 32], cost: u8| call_requires(generate, (id, cost)),
            forall|d: [u8; 16], s: &[u8]| call_requires(encrypt_fn, (d, s)),
            old(self)@.processing_count < u64::MAX,
        ensures
            exists|
                a: RouterModel,
                b: RouterModel,
                c: RouterModel,
                d: RouterModel,
                e: RouterModel,
            | #[trigger]
                is_turn(
                    old(self)@,
                    a,
                    b,
                    c,
                    d,
                    e,
                    final(self)@,
                    now,
                    result,
                    can_start,
                    generate,
                    r.0,
                    action_models(r.1@),
                ),
            sends(action_models(r.1@), encrypt_fn, r.2@),
    {
        let (job, actions) = self.tick(now, result, can_start, generate);
        let ghost (a, b, c, d, e) = choose|
            a: RouterModel,
            b: RouterModel,
            c: RouterModel,
            d: RouterModel,
            e: RouterModel,
        | #[trigger]
            is_turn(
                old(self)@,
                a,
                b,
                c,
                d,
                e,
                self@,
                now,
                result,
                can_start,
                generate,
                job,
                action_models(actions@),
            );
        let packets = self.execute_actions_with_encryptor(&actions, encrypt_fn);
        let r = (job, actions, packets);
        assert(is_turn(
            old(self)@,
            a,
            b,
            c,
            d,
            e,
            self@,
            now,
            result,
            can_start,
            generate,
            r.0,
            action_models(r.1@),
        ));
        r
    }

    /// What the router's propagation node announces at a time in seconds.
    pub fn get_propagation_node_app_data(&self, now: i64) -> (d: PropagationNodeAnnounceData)
        ensures
            announces(self@.config, now, d),
    {
        let mut metadata: Vec<(u8, Vec<u8>)> = Vec::new();
        match &self.config.ext.name {
            Some(name) => {
                metadata.push((METADATA_NAME, copy_slice(name.as_str().as_bytes())));
            },
            None => {},
        }
        PropagationNodeAnnounceData {
            legacy: false,
            node_state: self.config.propagation_enabled && !self.config.ext.from_static_only,
            timebase: now,
            transfer_limit: self.config.propagation_limit_kb as u64,
            sync_limit: self.config.sync_limit_kb as u64,
            stamp_cost: self.config.propagation_stamp_cost,
            stamp_flex: self.config.propagation_stamp_flex,
            peering_cost: self.config.ext.peering_cost,
            metadata,
        }
    }
}

/// Every packet is what the encryptor made of the part of a message that it hides, for the
/// message's own destination.
pub proof fn packets_are_encrypted<F: Fn([u8; 16], &[u8]) -> Result<Vec<u8>, MessageError>>(
    actions: Seq<ActionModel>,
    f: F,
    packets: Seq<Packet>,
    k: int,
)
    requires
        sends(actions, f, packets),
        0 <= k < packets.len(),
    ensures
        exists|i: int|
            0 <= i < actions.len() && is_packet_for(#[trigger] actions[i], f, packets[k]),
    decreases actions.len(),
{
    if actions.len() > 0 {
        let rest = actions.drop_last();
        let last = actions[actions.len() - 1];
        assert(actions.last() == last);
        if sends(rest, f, packets) {
            packets_are_encrypted(rest, f, packets, k);
        } else if k < packets.len() - 1 {
            packets_are_encrypted(rest, f, packets.drop_last(), k);
        }
        if sends(rest, f, packets) || k < packets.len() - 1 {
            let i = choose|i: int|
                0 <= i < rest.len() && is_packet_for(#[trigger] rest[i], f, packets[k]);
            assert(actions[i] == rest[i]);
        }
    }
}

/// A packet is made for a message that goes out in one, where it can be packed: the part of it
/// that is hidden, for the destination of the action.
pub proof fn packets_hide_the_message(a: ActionModel)
    ensures
        plaintext_of(a) is Some ==> a is DeliverOpportunistic,
        a matches ActionModel::DeliverOpportunistic { message, dest_hash } ==> (is_packable(message)
            ==> plaintext_of(a) == Some((dest_hash, hidden_part(message)))) && (!is_packable(
            message,
        ) ==> plaintext_of(a) is None),
{
}

/// An encryptor that refuses nothing has a packet sent for every message that goes out in one,
/// in order and to its own destination, and for nothing else.
pub proof fn every_message_gets_its_packet<
    F: Fn([u8; 16], &[u8]) -> Result<Vec<u8>, MessageError>,
>(actions: Seq<ActionModel>, f: F, packets: Seq<Packet>)
    requires
        sends(actions, f, packets),
        forall|i: int|
            0 <= i < actions.len() ==> match plaintext_of(#[trigger] actions[i]) {
                Some((destination, plaintext)) => !refuses(f, destination, plaintext),
                None => true,
            },
    ensures
        packets.map_values(|p: Packet| p.0) == actions.filter(
            |a: ActionModel| plaintext_of(a) is Some,
        ).map_values(
            |a: ActionModel|
                match a {
                    ActionModel::DeliverOpportunistic { message, dest_hash } => dest_hash,
                    _ => arbitrary(),
                },
        ),
    decreases actions.len(),
{
    reveal(Seq::filter);
    let to = |p: Packet| p.0;
    let test = |a: ActionModel| plaintext_of(a) is Some;
    let destination = |a: ActionModel|
        match a {
            ActionModel::DeliverOpportunistic { message, dest_hash } => dest_hash,
            _ => arbitrary(),
        };
    if actions.len() > 0 {
        let rest = actions.drop_last();
        let last = actions[actions.len() - 1];
        assert forall|i: int| 0 <= i < rest.len() implies match plaintext_of(#[trigger] rest[i]) {
            Some((d, plaintext)) => !refuses(f, d, plaintext),
            None => true,
        } by {
            assert(rest[i] == actions[i]);
        }
        match plaintext_of(last) {
            None => {
                every_message_gets_its_packet(rest, f, packets);
            },
            Some((d, plaintext)) => {
                every_message_gets_its_packet(rest, f, packets.drop_last());
                let chosen = rest.filter(test);
                assert(chosen.push(last).map_values(destination) =~= chosen.map_values(
                    destination,
                ).push(destination(last)));
                assert(packets.map_values(to) =~= packets.drop_last().map_values(to).push(
                    to(packets.last()),
                ));
            },
        }
    } else {
        assert(packets.map_values(to) =~= actions.filter(test).map_values(destination));
    }
}

/// A node announces that it takes part where propagation is on and not for static peers alone,
/// and its limits, costs and name as they are set up.
pub proof fn nodes_announce_how_they_are_set_up(
    c: RouterConfig,
    now: i64,
    d: PropagationNodeAnnounceData,
)
    requires
        announces(c, now, d),
    ensures
        d.node_state <==> c.propagation_enabled && !c.ext.from_static_only,
        d.timebase == now && !d.legacy,
        d.transfer_limit == c.propagation_limit_kb && d.sync_limit == c.sync_limit_kb,
        d.stamp_cost == c.propagation_stamp_cost && d.stamp_flex == c.propagation_stamp_flex,
        d.peering_cost == c.ext.peering_cost,
        c.ext.name is None ==> d.metadata@.len() == 0,
        c.ext.name matches Some(n) ==> d.metadata@.len() == 1 && d.metadata@[0].0 == 0
            && d.metadata@[0].1@ == encode_utf8(n@),
{
}

/// A packet goes to the destination of its message and holds what the encryption for that
/// destination made of everything behind the destination hash.
pub proof fn packets_hold_what_was_encrypted<
    F: Fn([u8; 16], &[u8]) -> Result<Vec<u8>, MessageError>,
>(a: ActionModel, f: F, p: Packet, e: Result<Vec<u8>, MessageError>, plaintext: Seq<u8>)
    ensures
        is_packet_for(a, f, p) ==> {
            &&& a matches ActionModel::DeliverOpportunistic { message, dest_hash } && is_packable(
                message,
            ) && p.0 == dest_hash && exists|s: &[u8]|
                s@ == hidden_part(message) && #[trigger] call_ensures(f, (dest_hash, s), Ok(p.1))
        },
        encrypts(f, p.0, plaintext, e) <==> exists|s: &[u8]|
            s@ == plaintext && #[trigger] call_ensures(f, (p.0, s), e),
{
}

} // verus!
