//! The router: it queues messages for delivery, keeps the peers of a propagation node and
//! knows who may do what.

use vstd::prelude::*;

use crate::bytes::{list_add, list_contains, list_remove, without_element};
use crate::constants::{
    AUTOPEER, AUTOPEER_MAXDEPTH, DELIVERY_LIMIT, MAX_PEERING_COST, MAX_PEERS, PEERING_COST,
    PROPAGATION_COST, PROPAGATION_COST_FLEX, PROPAGATION_COST_MIN, PROPAGATION_LIMIT, SYNC_LIMIT,
};
use crate::memory::{empty_model, MemoryStorage};
use crate::message::{LxMessage, MessageModel};
use crate::peer::{LxmPeer, PeerModel};
use crate::propagation::{PropagationEntry, PropagationStore};
use crate::router::outbound::message_models;
use crate::storage::{LxmfStorage, StorageModel};
use crate::table::Table;
use crate::ticket::{Ticket, TicketStore};

pub mod delivery;
pub mod direct;
pub mod dispatch;
pub mod jobs;
pub mod outbound;
pub mod peers;
pub mod queue;
pub mod records;
pub mod stamps;
pub mod status;

verus! {

/// How a router is set up.
#[derive(Debug, Clone)]
pub struct RouterConfig {
    pub propagation_enabled: bool,
    pub autopeer: bool,
    pub max_peers: usize,
    pub propagation_limit_kb: usize,
    pub delivery_limit_kb: usize,
    pub sync_limit_kb: usize,
    pub propagation_stamp_cost: u8,
    pub propagation_stamp_flex: u8,
    pub stamp_cost: Option<u8>,
    pub ext: RouterConfigExt,
}

/// How a router is set up: what is seldom changed.
#[derive(Debug, Clone)]
pub struct RouterConfigExt {
    pub autopeer_maxdepth: usize,
    pub propagation_cost_min: u8,
    pub peering_cost: u8,
    pub max_peering_cost: u8,
    pub processing_outbound: bool,
    /// How many queued messages are processed in one pass.
    pub processing_limit: Option<usize>,
    pub retain_synced_on_node: bool,
    pub auth_required: bool,
    /// Whether stamps are generated apart from sending.
    pub defer_stamp_generation: bool,
    /// Bytes that the propagation store holds at most.
    pub message_storage_limit: Option<usize>,
    /// The name that a propagation node announces.
    pub name: Option<String>,
    pub from_static_only: bool,
}

/// The seldom changed part of the default configuration.
pub open spec fn default_config_ext() -> RouterConfigExt {
    RouterConfigExt {
        autopeer_maxdepth: AUTOPEER_MAXDEPTH,
        propagation_cost_min: PROPAGATION_COST_MIN,
        peering_cost: PEERING_COST,
        max_peering_cost: MAX_PEERING_COST,
        processing_outbound: true,
        processing_limit: None,
        retain_synced_on_node: false,
        auth_required: false,
        defer_stamp_generation: true,
        message_storage_limit: None,
        name: None,
        from_static_only: false,
    }
}

/// The default configuration.
pub open spec fn default_config() -> RouterConfig {
    RouterConfig {
        propagation_enabled: false,
        autopeer: AUTOPEER,
        max_peers: MAX_PEERS,
        propagation_limit_kb: PROPAGATION_LIMIT,
        delivery_limit_kb: DELIVERY_LIMIT,
        sync_limit_kb: SYNC_LIMIT,
        propagation_stamp_cost: PROPAGATION_COST,
        propagation_stamp_flex: PROPAGATION_COST_FLEX,
        stamp_cost: None,
        ext: default_config_ext(),
    }
}

impl Default for RouterConfigExt {
    fn default() -> (c: Self)
        ensures
            c == default_config_ext(),
    {
        RouterConfigExt {
            autopeer_maxdepth: AUTOPEER_MAXDEPTH,
            propagation_cost_min: PROPAGATION_COST_MIN,
            peering_cost: PEERING_COST,
            max_peering_cost: MAX_PEERING_COST,
            processing_outbound: true,
            processing_limit: None,
            retain_synced_on_node: false,
            auth_required: false,
            defer_stamp_generation: true,
            message_storage_limit: None,
            name: None,
            from_static_only: false,
        }
    }
}

impl Default for RouterConfig {
    fn default() -> (c: Self)
        ensures
            c == default_config(),
    {
        RouterConfig {
            propagation_enabled: false,
            autopeer: AUTOPEER,
            max_peers: MAX_PEERS,
            propagation_limit_kb: PROPAGATION_LIMIT,
            delivery_limit_kb: DELIVERY_LIMIT,
            sync_limit_kb: SYNC_LIMIT,
            propagation_stamp_cost: PROPAGATION_COST,
            propagation_stamp_flex: PROPAGATION_COST_FLEX,
            stamp_cost: None,
            ext: RouterConfigExt::default(),
        }
    }
}

/// A stamp cost that a destination announced, and when.
#[derive(Debug, Clone, Copy)]
pub struct StampCostEntry {
    pub cost: u8,
    pub recorded_at: i64,
}

impl View for StampCostEntry {
    type V = StampCostEntry;

    open spec fn view(&self) -> StampCostEntry {
        *self
    }
}

/// What became of a message, for whoever sent it.
pub ghost struct NoticeModel {
    pub delivered: bool,
    pub message: MessageModel,
}

/// What became of a message, for whoever sent it: it was delivered, or it failed.
#[derive(Debug)]
pub struct Notice {
    pub delivered: bool,
    pub message: LxMessage,
}

impl View for Notice {
    type V = NoticeModel;

    open spec fn view(&self) -> NoticeModel {
        NoticeModel { delivered: self.delivered, message: self.message@ }
    }
}

/// What some notices say.
pub open spec fn notice_models(s: Seq<Notice>) -> Seq<NoticeModel> {
    Seq::new(s.len(), |i: int| s[i]@)
}

/// What a router knows.
#[verifier::ext_equal]
pub ghost struct RouterModel {
    pub storage: StorageModel,
    /// Whether storage never fails.
    pub reliable: bool,
    /// Whether the queues, costs and tickets are kept in storage.
    pub storage_authoritative: bool,
    pub config: RouterConfig,
    pub pending: Seq<MessageModel>,
    pub deferred: Map<[u8; 32], MessageModel>,
    pub active_stamp: Option<[u8; 32]>,
    pub allowed: Seq<[u8; 16]>,
    pub blocked: Seq<[u8; 16]>,
    pub allowed_control: Seq<[u8; 16]>,
    pub ignored: Seq<[u8; 16]>,
    pub peers: Map<[u8; 16], PeerModel>,
    pub static_peers: Seq<[u8; 16]>,
    pub store: Map<[u8; 32], PropagationEntry>,
    pub store_ignored: Set<[u8; 16]>,
    pub store_prioritised: Set<[u8; 16]>,
    pub stamp_costs: Map<[u8; 16], StampCostEntry>,
    pub tickets: Seq<Ticket>,
    pub prioritized: Map<[u8; 16], u8>,
    pub throttled: Map<[u8; 16], i64>,
    pub propagation_start_time: Option<i64>,
    pub processing_count: u64,
    pub last_jobs_tick: i64,
    pub outbound_propagation_node: Option<[u8; 16]>,
    pub transfer_progress: u32,
    pub client_received: u64,
    pub client_served: u64,
    pub unpeered_incoming: u64,
    pub unpeered_rx_bytes: u64,
    pub notices: Seq<NoticeModel>,
}

/// A router.
pub struct LxmRouter<S: LxmfStorage> {
    pub storage: S,
    pub storage_authoritative: bool,
    pub config: RouterConfig,
    /// The messages that wait for delivery, in the order they were sent.
    pub pending_outbound: Vec<LxMessage>,
    /// The messages that wait for a stamp.
    pub pending_deferred_stamps: Table<32, LxMessage>,
    /// The message for which a stamp is being generated.
    pub active_deferred_stamp: Option<[u8; 32]>,
    /// Who may deliver; everyone where there is nobody.
    pub allowed: Vec<[u8; 16]>,
    pub blocked: Vec<[u8; 16]>,
    pub allowed_control: Vec<[u8; 16]>,
    pub ignored: Vec<[u8; 16]>,
    pub peers: Table<16, LxmPeer>,
    /// Peers that are never rotated out.
    pub static_peers: Vec<[u8; 16]>,
    pub propagation_store: PropagationStore,
    pub outbound_stamp_costs: Table<16, StampCostEntry>,
    pub ticket_store: TicketStore,
    pub prioritized: Table<16, u8>,
    /// Until when each throttled peer is.
    pub throttled_peers: Table<16, i64>,
    pub propagation_start_time: Option<i64>,
    pub processing_count: u64,
    /// When the periodic jobs last ran.
    pub last_jobs_tick: i64,
    pub outbound_propagation_node: Option<[u8; 16]>,
    /// Progress in millionths.
    pub propagation_transfer_progress: u32,
    pub client_propagation_messages_received: u64,
    pub client_propagation_messages_served: u64,
    pub unpeered_propagation_incoming: u64,
    pub unpeered_propagation_rx_bytes: u64,
    /// What is to be told to the senders of messages.
    pub notices: Vec<Notice>,
}

impl<S: LxmfStorage> View for LxmRouter<S> {
    type V = RouterModel;

    open spec fn view(&self) -> RouterModel {
        RouterModel {
            storage: self.storage.model(),
            reliable: self.storage.reliable(),
            storage_authoritative: self.storage_authoritative,
            config: self.config,
            pending: message_models(self.pending_outbound@),
            deferred: self.pending_deferred_stamps@,
            active_stamp: self.active_deferred_stamp,
            allowed: self.allowed@,
            blocked: self.blocked@,
            allowed_control: self.allowed_control@,
            ignored: self.ignored@,
            peers: self.peers@,
            static_peers: self.static_peers@,
            store: self.propagation_store@,
            store_ignored: self.propagation_store.ignored_set(),
            store_prioritised: self.propagation_store.prioritised_set(),
            stamp_costs: self.outbound_stamp_costs@,
            tickets: self.ticket_store@,
            prioritized: self.prioritized@,
            throttled: self.throttled_peers@,
            propagation_start_time: self.propagation_start_time,
            processing_count: self.processing_count,
            last_jobs_tick: self.last_jobs_tick,
            outbound_propagation_node: self.outbound_propagation_node,
            transfer_progress: self.propagation_transfer_progress,
            client_received: self.client_propagation_messages_received,
            client_served: self.client_propagation_messages_served,
            unpeered_incoming: self.unpeered_propagation_incoming,
            unpeered_rx_bytes: self.unpeered_propagation_rx_bytes,
            notices: notice_models(self.notices@),
        }
    }
}

/// A router that knows nothing yet.
pub open spec fn fresh_router(
    config: RouterConfig,
    storage: StorageModel,
    reliable: bool,
    storage_authoritative: bool,
) -> RouterModel {
    RouterModel {
        storage,
        reliable,
        storage_authoritative,
        config,
        pending: Seq::empty(),
        deferred: Map::empty(),
        active_stamp: None,
        allowed: Seq::empty(),
        blocked: Seq::empty(),
        allowed_control: Seq::empty(),
        ignored: Seq::empty(),
        peers: Map::empty(),
        static_peers: Seq::empty(),
        store: Map::empty(),
        store_ignored: Set::empty(),
        store_prioritised: Set::empty(),
        stamp_costs: Map::empty(),
        tickets: Seq::empty(),
        prioritized: Map::empty(),
        throttled: Map::empty(),
        propagation_start_time: None,
        processing_count: 0,
        last_jobs_tick: 0,
        outbound_propagation_node: None,
        transfer_progress: 0,
        client_received: 0,
        client_served: 0,
        unpeered_incoming: 0,
        unpeered_rx_bytes: 0,
        notices: Seq::empty(),
    }
}

impl LxmRouter<MemoryStorage> {
    /// A router that keeps everything in memory.
    pub fn new(config: RouterConfig) -> (r: Self)
        ensures
            r@ == fresh_router(config, empty_model(), true, false),
    {
        LxmRouter::with_storage_backend(config, MemoryStorage::new())
    }
}

/// A list with one more element, unless it has it.
pub open spec fn with_listed(list: Seq<[u8; 16]>, x: [u8; 16]) -> Seq<[u8; 16]> {
    if list.contains(x) {
        list
    } else {
        list.push(x)
    }
}

/// Whether a router lets an identity deliver: it is not blocked, and it is on the list
/// where there is one.
pub open spec fn lets_deliver(m: RouterModel, identity: [u8; 16]) -> bool {
    !m.blocked.contains(identity) && (m.allowed.len() == 0 || m.allowed.contains(identity))
}

impl<S: LxmfStorage> LxmRouter<S> {
    /// A router with a storage backend, which keeps its queues in memory.
    pub fn with_storage_backend(config: RouterConfig, storage: S) -> (r: Self)
        ensures
            r@ == fresh_router(config, storage.model(), storage.reliable(), false),
    {
        let r = LxmRouter {
            storage,
            storage_authoritative: false,
            config,
            pending_outbound: Vec::new(),
            pending_deferred_stamps: Table::new(),
            active_deferred_stamp: None,
            allowed: Vec::new(),
            blocked: Vec::new(),
            allowed_control: Vec::new(),
            ignored: Vec::new(),
            peers: Table::new(),
            static_peers: Vec::new(),
            propagation_store: PropagationStore::new(),
            outbound_stamp_costs: Table::new(),
            ticket_store: TicketStore::new(),
            prioritized: Table::new(),
            throttled_peers: Table::new(),
            propagation_start_time: None,
            processing_count: 0,
            last_jobs_tick: 0,
            outbound_propagation_node: None,
            propagation_transfer_progress: 0,
            client_propagation_messages_received: 0,
            client_propagation_messages_served: 0,
            unpeered_propagation_incoming: 0,
            unpeered_propagation_rx_bytes: 0,
            notices: Vec::new(),
        };
        proof {
            assert(r@.pending =~= Seq::empty());
            assert(r@.notices =~= Seq::empty());
        }
        r
    }

    /// A router that keeps its queues, costs and tickets in storage.
    pub fn with_shared_storage_backend(config: RouterConfig, storage: S) -> (r: Self)
        ensures
            r@ == fresh_router(config, storage.model(), storage.reliable(), true),
    {
        let mut r = LxmRouter::with_storage_backend(config, storage);
        r.storage_authoritative = true;
        r
    }

    /// Takes what is to be told to the senders of messages.
    pub fn take_notices(&mut self) -> (list: Vec<Notice>)
        ensures
            notice_models(list@) == old(self)@.notices,
            final(self)@ == (RouterModel { notices: Seq::empty(), ..old(self)@ }),
    {
        let mut list: Vec<Notice> = Vec::new();
        std::mem::swap(&mut list, &mut self.notices);
        assert(self@.notices =~= Seq::empty());
        list
    }

    // -----------------------------------------------------------------------
    // Who may do what.
    // -----------------------------------------------------------------------

    pub fn allow(&mut self, identity_hash: [u8; 16])
        ensures
            final(self)@ == (RouterModel {
                allowed: with_listed(old(self)@.allowed, identity_hash),
                ..old(self)@
            }),
    {
        let _ = list_add(&mut self.allowed, identity_hash);
    }

    pub fn disallow(&mut self, identity_hash: &[u8; 16])
        ensures
            final(self)@ == (RouterModel {
                allowed: without_element(old(self)@.allowed, *identity_hash),
                ..old(self)@
            }),
    {
        list_remove(&mut self.allowed, identity_hash);
    }

    pub fn allow_control(&mut self, identity_hash: [u8; 16])
        ensures
            final(self)@ == (RouterModel {
                allowed_control: with_listed(old(self)@.allowed_control, identity_hash),
                ..old(self)@
            }),
    {
        let _ = list_add(&mut self.allowed_control, identity_hash);
    }

    pub fn disallow_control(&mut self, identity_hash: &[u8; 16])
        ensures
            final(self)@ == (RouterModel {
                allowed_control: without_element(old(self)@.allowed_control, *identity_hash),
                ..old(self)@
            }),
    {
        list_remove(&mut self.allowed_control, identity_hash);
    }

    pub fn block(&mut self, identity_hash: [u8; 16])
        ensures
            final(self)@ == (RouterModel {
                blocked: with_listed(old(self)@.blocked, identity_hash),
                ..old(self)@
            }),
    {
        let _ = list_add(&mut self.blocked, identity_hash);
    }

    pub fn unblock(&mut self, identity_hash: &[u8; 16])
        ensures
            final(self)@ == (RouterModel {
                blocked: without_element(old(self)@.blocked, *identity_hash),
                ..old(self)@
            }),
    {
        list_remove(&mut self.blocked, identity_hash);
    }

    pub fn is_allowed(&self, identity_hash: &[u8; 16]) -> (b: bool)
        ensures
            b == lets_deliver(self@, *identity_hash),
    {
        if !list_contains(&self.blocked, identity_hash) {
            self.allowed.len() == 0 || list_contains(&self.allowed, identity_hash)
        } else {
            false
        }
    }

    pub fn is_control_allowed(&self, identity_hash: &[u8; 16]) -> (b: bool)
        ensures
            b == self@.allowed_control.contains(*identity_hash),
    {
        list_contains(&self.allowed_control, identity_hash)
    }

    pub fn ignore_destination(&mut self, dest_hash: [u8; 16])
        ensures
            final(self)@ == (RouterModel {
                ignored: with_listed(old(self)@.ignored, dest_hash),
                store_ignored: old(self)@.store_ignored.insert(dest_hash),
                ..old(self)@
            }),
    {
        let _ = list_add(&mut self.ignored, dest_hash);
        self.propagation_store.ignore_destination(dest_hash);
    }

    pub fn unignore_destination(&mut self, dest_hash: &[u8; 16])
        ensures
            final(self)@ == (RouterModel {
                ignored: without_element(old(self)@.ignored, *dest_hash),
                store_ignored: old(self)@.store_ignored.remove(*dest_hash),
                ..old(self)@
            }),
    {
        list_remove(&mut self.ignored, dest_hash);
        self.propagation_store.unignore_destination(dest_hash);
    }

    pub fn prioritise(&mut self, identity_hash: [u8; 16], level: u8)
        ensures
            final(self)@ == (RouterModel {
                prioritized: old(self)@.prioritized.insert(identity_hash, level),
                store_prioritised: old(self)@.store_prioritised.insert(identity_hash),
                ..old(self)@
            }),
    {
        self.prioritized.insert(identity_hash, level);
        self.propagation_store.prioritise_destination(identity_hash);
    }

    pub fn unprioritise(&mut self, identity_hash: &[u8; 16])
        ensures
            final(self)@ == (RouterModel {
                prioritized: old(self)@.prioritized.remove(*identity_hash),
                store_prioritised: old(self)@.store_prioritised.remove(*identity_hash),
                ..old(self)@
            }),
    {
        let _ = self.prioritized.remove(identity_hash);
        self.propagation_store.unprioritise_destination(identity_hash);
    }

    /// Lets some more identities deliver.
    pub fn extend_allowed(&mut self, identities: &Vec<[u8; 16]>)
        ensures
            final(self)@ == (RouterModel {
                allowed: with_all_listed(old(self)@.allowed, identities@),
                ..old(self)@
            }),
    {
        let ghost before = self@;
        let mut i: usize = 0;
        assert(identities@.take(0) =~= Seq::empty());
        while i < identities.len()
            invariant
                i <= identities@.len(),
                self@ == (RouterModel {
                    allowed: with_all_listed(before.allowed, identities@.take(i as int)),
                    ..before
                }),
            decreases identities@.len() - i,
        {
            assert(identities@.take(i + 1).drop_last() =~= identities@.take(i as int));
            self.allow(identities[i]);
            i = i + 1;
        }
        assert(identities@.take(i as int) =~= identities@);
    }

    /// Ignores some more destinations.
    pub fn extend_ignored(&mut self, destinations: &Vec<[u8; 16]>)
        ensures
            final(self)@ == (RouterModel {
                ignored: with_all_listed(old(self)@.ignored, destinations@),
                store_ignored: old(self)@.store_ignored.union(destinations@.to_set()),
                ..old(self)@
            }),
    {
        let ghost before = self@;
        let mut i: usize = 0;
        proof {
            assert(destinations@.take(0) =~= Seq::empty());
            assert(before.store_ignored.union(destinations@.take(0).to_set())
                =~= before.store_ignored);
        }
        while i < destinations.len()
            invariant
                i <= destinations@.len(),
                self@ == (RouterModel {
                    ignored: with_all_listed(before.ignored, destinations@.take(i as int)),
                    store_ignored: before.store_ignored.union(
                        destinations@.take(i as int).to_set(),
                    ),
                    ..before
                }),
            decreases destinations@.len() - i,
        {
            proof {
                let t = destinations@.take(i as int);
                let x = destinations@[i as int];
                let n = destinations@.take(i + 1);
                assert(n.drop_last() =~= t);
                assert(n =~= t.push(x));
                assert(before.store_ignored.union(t.to_set()).insert(x)
                    =~= before.store_ignored.union(n.to_set())) by {
                    assert forall|k: [u8; 16]| n.contains(k) <==> t.contains(k) || k == x by {
                        if t.contains(k) {
                            let q = choose|q: int| 0 <= q < t.len() && t[q] == k;
                            assert(n[q] == k);
                        }
                        assert(n[t.len() as int] == x);
                        if n.contains(k) && k != x {
                            let q = choose|q: int| 0 <= q < n.len() && n[q] == k;
                            assert(t[q] == k);
                        }
                    }
                }
            }
            self.ignore_destination(destinations[i]);
            i = i + 1;
        }
        assert(destinations@.take(i as int) =~= destinations@);
    }

    // -----------------------------------------------------------------------
    // Configuration.
    // -----------------------------------------------------------------------

    /// Whether only listed identities may deliver.
    pub fn requires_authentication(&self) -> (b: bool)
        ensures
            b == self@.config.ext.auth_required,
    {
        self.config.ext.auth_required
    }

    pub fn set_authentication(&mut self, required: bool)
        ensures
            final(self)@ == (RouterModel {
                config: RouterConfig {
                    ext: RouterConfigExt { auth_required: required, ..old(self)@.config.ext },
                    ..old(self)@.config
                },
                ..old(self)@
            }),
    {
        self.config.ext.auth_required = required;
    }

    /// Whether messages that a client collected stay on the node.
    pub fn retain_node_lxms(&self) -> (b: bool)
        ensures
            b == self@.config.ext.retain_synced_on_node,
    {
        self.config.ext.retain_synced_on_node
    }

    pub fn set_retain_node_lxms(&mut self, retain: bool)
        ensures
            final(self)@ == (RouterModel {
                config: RouterConfig {
                    ext: RouterConfigExt { retain_synced_on_node: retain, ..old(self)@.config.ext },
                    ..old(self)@.config
                },
                ..old(self)@
            }),
    {
        self.config.ext.retain_synced_on_node = retain;
    }

    pub fn message_storage_limit(&self) -> (limit: Option<usize>)
        ensures
            limit == self@.config.ext.message_storage_limit,
    {
        self.config.ext.message_storage_limit
    }

    pub fn set_message_storage_limit(&mut self, limit: Option<usize>)
        ensures
            final(self)@ == (RouterModel {
                config: RouterConfig {
                    ext: RouterConfigExt { message_storage_limit: limit, ..old(self)@.config.ext },
                    ..old(self)@.config
                },
                ..old(self)@
            }),
    {
        self.config.ext.message_storage_limit = limit;
    }

    pub fn set_propagation_enabled(&mut self, enabled: bool)
        ensures
            final(self)@ == (RouterModel {
                config: RouterConfig { propagation_enabled: enabled, ..old(self)@.config },
                ..old(self)@
            }),
    {
        self.config.propagation_enabled = enabled;
    }

    pub fn set_outbound_propagation_node(&mut self, destination_hash: Option<[u8; 16]>)
        ensures
            final(self)@ == (RouterModel {
                outbound_propagation_node: destination_hash,
                ..old(self)@
            }),
    {
        self.outbound_propagation_node = destination_hash;
    }

    pub fn outbound_propagation_node(&self) -> (node: Option<[u8; 16]>)
        ensures
            node == self@.outbound_propagation_node,
    {
        self.outbound_propagation_node
    }

    pub fn set_autopeer(&mut self, enabled: bool)
        ensures
            final(self)@ == (RouterModel {
                config: RouterConfig { autopeer: enabled, ..old(self)@.config },
                ..old(self)@
            }),
    {
        self.config.autopeer = enabled;
    }

    pub fn set_max_peers(&mut self, max: usize)
        ensures
            final(self)@ == (RouterModel {
                config: RouterConfig { max_peers: max, ..old(self)@.config },
                ..old(self)@
            }),
    {
        self.config.max_peers = max;
    }

    pub fn set_propagation_limit(&mut self, limit_kb: usize)
        ensures
            final(self)@ == (RouterModel {
                config: RouterConfig { propagation_limit_kb: limit_kb, ..old(self)@.config },
                ..old(self)@
            }),
    {
        self.config.propagation_limit_kb = limit_kb;
    }

    pub fn set_stamp_requirements(&mut self, cost: u8, flex: u8)
        ensures
            final(self)@ == (RouterModel {
                config: RouterConfig {
                    propagation_stamp_cost: cost,
                    propagation_stamp_flex: flex,
                    ..old(self)@.config
                },
                ..old(self)@
            }),
    {
        self.config.propagation_stamp_cost = cost;
        self.config.propagation_stamp_flex = flex;
    }

    /// Starts counting the time that propagation runs, unless it is counted.
    pub fn ensure_propagation_started(&mut self, now: i64)
        ensures
            final(self)@ == (RouterModel {
                propagation_start_time: match old(self)@.propagation_start_time {
                    Some(t) => Some(t),
                    None => Some(now),
                },
                ..old(self)@
            }),
    {
        match self.propagation_start_time {
            Some(_) => {},
            None => {
                self.propagation_start_time = Some(now);
            },
        }
    }

    /// The first `limit` identities that may use the control interface.
    pub fn control_allowed_identities(&self, limit: usize) -> (list: Vec<[u8; 16]>)
        ensures
            list@ == (if limit < self@.allowed_control.len() {
                self@.allowed_control.take(limit as int)
            } else {
                self@.allowed_control
            }),
    {
        let mut list: Vec<[u8; 16]> = Vec::new();
        let mut i: usize = 0;
        assert(list@ =~= self.allowed_control@.take(0));
        while i < self.allowed_control.len() && i < limit
            invariant
                i <= self.allowed_control@.len(),
                i <= limit,
                list@ == self.allowed_control@.take(i as int),
            decreases self.allowed_control@.len() - i,
        {
            list.push(self.allowed_control[i]);
            i = i + 1;
            assert(list@ =~= self.allowed_control@.take(i as int));
        }
        assert(i == self.allowed_control@.len() ==> list@ =~= self.allowed_control@);
        list
    }

    pub fn control_allowed_count(&self) -> (n: usize)
        ensures
            n == self@.allowed_control.len(),
    {
        self.allowed_control.len()
    }
}

/// A list with some more elements, each once.
pub open spec fn with_all_listed(list: Seq<[u8; 16]>, more: Seq<[u8; 16]>) -> Seq<[u8; 16]>
    decreases more.len(),
{
    if more.len() == 0 {
        list
    } else {
        with_listed(with_all_listed(list, more.drop_last()), more.last())
    }
}

/// Whoever is blocked may not deliver, whatever list they are on.
pub proof fn blocking_prevails(m: RouterModel, identity: [u8; 16], allowed: Seq<[u8; 16]>)
    ensures
        !lets_deliver(
            RouterModel { blocked: with_listed(m.blocked, identity), allowed, ..m },
            identity,
        ),
{
    assert(m.blocked.push(identity)[m.blocked.len() as int] == identity);
}

/// An identity may deliver unless it is blocked, or there is a list of those who may and it is
/// not on it.
pub proof fn who_may_deliver(m: RouterModel, identity: [u8; 16])
    ensures
        m.blocked.contains(identity) ==> !lets_deliver(m, identity),
        !m.blocked.contains(identity) && m.allowed.len() == 0 ==> lets_deliver(m, identity),
        !m.blocked.contains(identity) && m.allowed.contains(identity) ==> lets_deliver(m, identity),
        m.allowed.len() > 0 && !m.allowed.contains(identity) ==> !lets_deliver(m, identity),
{
}

/// A list that some are put on has them and all who were on it, and nobody else, each newcomer
/// once and behind those before.
pub proof fn lists_grow_by_newcomers(list: Seq<[u8; 16]>, more: Seq<[u8; 16]>, x: [u8; 16])
    ensures
        with_all_listed(list, more).contains(x) <==> list.contains(x) || more.contains(x),
        with_all_listed(list, more).len() >= list.len(),
        with_all_listed(list, more).take(list.len() as int) == list,
        list.no_duplicates() ==> with_all_listed(list, more).no_duplicates(),
    decreases more.len(),
{
    if more.len() > 0 {
        let rest = more.drop_last();
        let last = more.last();
        lists_grow_by_newcomers(list, rest, x);
        let before = with_all_listed(list, rest);
        let after = with_all_listed(list, more);
        assert(more.contains(x) <==> rest.contains(x) || x == last) by {
            if more.contains(x) {
                let i = choose|i: int| 0 <= i < more.len() && more[i] == x;
                if i < rest.len() {
                    assert(rest[i] == x);
                }
            }
            if rest.contains(x) {
                let i = choose|i: int| 0 <= i < rest.len() && rest[i] == x;
                assert(more[i] == x);
            }
            assert(more[more.len() - 1] == last);
        }
        if !before.contains(last) {
            assert(after == before.push(last));
            if before.contains(x) {
                let i = choose|i: int| 0 <= i < before.len() && before[i] == x;
                assert(after[i] == x);
            }
            assert(after[before.len() as int] == last);
            if after.contains(x) && x != last {
                let i = choose|i: int| 0 <= i < after.len() && after[i] == x;
                assert(before[i] == x);
            }
        }
        assert(after.take(list.len() as int) =~= before.take(list.len() as int));
    } else {
        assert(list.take(list.len() as int) =~= list);
    }
}

/// A new router knows nobody and has nothing to do, and finds what its storage holds.
pub proof fn new_routers_start_empty(
    config: RouterConfig,
    storage: StorageModel,
    reliable: bool,
    storage_authoritative: bool,
)
    ensures
        ({
            let m = fresh_router(config, storage, reliable, storage_authoritative);
            &&& m.storage == storage && m.config == config && m.storage_authoritative
                == storage_authoritative
            &&& m.pending.len() == 0 && m.deferred.dom() =~= Set::<[u8; 32]>::empty()
            &&& m.active_stamp is None && m.notices.len() == 0
            &&& m.peers.dom() =~= Set::<[u8; 16]>::empty() && m.static_peers.len() == 0
            &&& m.store.dom() =~= Set::<[u8; 32]>::empty() && m.tickets.len() == 0
            &&& m.stamp_costs.dom() =~= Set::<[u8; 16]>::empty()
            &&& m.allowed.len() == 0 && m.blocked.len() == 0
            &&& m.outbound_propagation_node is None && m.processing_count == 0
        }),
{
}

/// A router is set up to make peers, to process its queue without a limit and to put stamps off;
/// it is no propagation node and asks for no stamp.
pub proof fn routers_are_set_up_to_deliver()
    ensures
        ({
            let c = default_config();
            &&& !c.propagation_enabled
            &&& c.autopeer
            &&& c.stamp_cost is None
            &&& c.max_peers == 20
            &&& c.propagation_limit_kb == 256
            &&& c.delivery_limit_kb == 1000
            &&& c.sync_limit_kb == 10240
            &&& c.propagation_stamp_cost == 16
            &&& c.propagation_stamp_flex == 3
            &&& c.ext.autopeer_maxdepth == 4
            &&& c.ext.propagation_cost_min == 13
            &&& c.ext.peering_cost == 18
            &&& c.ext.max_peering_cost == 26
            &&& c.ext.processing_outbound
            &&& c.ext.processing_limit is None
            &&& !c.ext.retain_synced_on_node
            &&& !c.ext.auth_required
            &&& c.ext.defer_stamp_generation
            &&& c.ext.message_storage_limit is None
            &&& c.ext.name is None
            &&& !c.ext.from_static_only
        }),
{
}

} // verus!
