//! What a router does from time to time, and the status it reports.

use vstd::prelude::*;

use crate::bytes::list_contains;
use crate::clock::{before, seconds_before, to_seconds, whole_seconds};
use crate::constants::{
    peer_state_byte, JOB_PEERSYNC_INTERVAL, JOB_ROTATE_INTERVAL, JOB_STORE_INTERVAL,
    JOB_TRANSIENT_INTERVAL, MESSAGE_EXPIRY, MICROS_PER_SECOND, STAMP_COST_EXPIRY, TICKET_GRACE,
};
use crate::peer::{LxmPeer, PeerModel};
use crate::propagation::{
    entry_bytes, entry_weight, fresh_entries, heaviest_first, is_fresh, is_overflow,
    lemma_overflow_fits, PropagationEntry,
};
use crate::router::delivery::{is_processed, is_swept};
use crate::router::outbound::{
    action_models, passes_do_nothing_uncalled_for, ActionModel, OutboundAction,
};
use crate::router::peers::{
    by_acceptance, drop_count, is_checkpointed, is_rotated_out, is_rotation_due, may_drop, poor_in,
    without_peers,
};
use crate::router::queue::is_hydrated;
use crate::router::records::{known_cost, retention_cutoff, still_throttled, tries};
use crate::router::stamps::{is_stamp_round, DeferredStampJob, DeferredStampResult};
use crate::router::{LxmRouter, RouterModel, StampCostEntry};
use crate::select::{first, total};
use crate::storage::{not_before, LxmfStorage, StorageModel, StoredStampCost};
use crate::table::{as_map, kept, lemma_kept_weighs_less, saturated, weigh, without, Table};
use crate::ticket::Ticket;

verus! {

/// Microseconds that lie at least between two rounds of periodic jobs: nine tenths of the
/// interval at which they are meant to run.
pub const JOBS_GAP: i64 = 3_600_000;

/// What is told of a peer.
#[derive(Debug, Clone, Copy)]
pub struct PeerStats {
    /// Whether the peer is never rotated out.
    pub is_static: bool,
    pub state: u8,
    pub alive: bool,
    pub last_heard: i64,
    pub next_sync_attempt: i64,
    pub last_sync_attempt: i64,
    pub sync_backoff: i64,
    pub peering_timebase: u64,
    pub link_establishment_rate: u64,
    pub sync_transfer_rate: u64,
    pub transfer_limit: Option<u64>,
    pub sync_limit: Option<u64>,
    pub stamp_cost: Option<u8>,
    pub stamp_cost_flexibility: Option<u8>,
    pub peering_cost: u8,
    pub peering_key: Option<u64>,
    pub rx_bytes: u64,
    pub tx_bytes: u64,
    pub offered: u64,
    pub outgoing: u64,
    pub incoming: u64,
    pub unhandled: u32,
}

impl View for PeerStats {
    type V = PeerStats;

    open spec fn view(&self) -> PeerStats {
        *self
    }
}

impl PeerStats {
    /// What kind of peer it is, in a word.
    pub fn peer_type(&self) -> (text: &'static str)
        ensures
            text@ == (if self.is_static {
                "static"@
            } else {
                "discovered"@
            }),
    {
        if self.is_static {
            "static"
        } else {
            "discovered"
        }
    }
}

/// What a propagation node tells of itself.
pub struct NodeStats {
    /// Microseconds for which propagation has been running.
    pub uptime: i64,
    pub delivery_limit: usize,
    pub propagation_limit: usize,
    pub sync_limit: usize,
    pub stamp_cost: u8,
    pub stamp_flex: u8,
    pub peering_cost: u8,
    pub max_peering_cost: u8,
    pub autopeer_maxdepth: usize,
    pub from_static_only: bool,
    pub message_count: usize,
    pub message_size: usize,
    pub storage_limit: Option<usize>,
    pub total_peers: usize,
    pub max_peers: usize,
    pub client_messages_received: u64,
    pub client_messages_served: u64,
    pub unpeered_incoming: u64,
    pub unpeered_rx_bytes: u64,
    pub peer_stats: Table<16, PeerStats>,
}

/// What a propagation node tells of itself.
#[verifier::ext_equal]
pub ghost struct StatsModel {
    pub uptime: i64,
    pub delivery_limit: usize,
    pub propagation_limit: usize,
    pub sync_limit: usize,
    pub stamp_cost: u8,
    pub stamp_flex: u8,
    pub peering_cost: u8,
    pub max_peering_cost: u8,
    pub autopeer_maxdepth: usize,
    pub from_static_only: bool,
    pub message_count: nat,
    pub message_size: usize,
    pub storage_limit: Option<usize>,
    pub total_peers: nat,
    pub max_peers: usize,
    pub client_messages_received: u64,
    pub client_messages_served: u64,
    pub unpeered_incoming: u64,
    pub unpeered_rx_bytes: u64,
    pub peer_stats: Map<[u8; 16], PeerStats>,
}

impl View for NodeStats {
    type V = StatsModel;

    open spec fn view(&self) -> StatsModel {
        StatsModel {
            uptime: self.uptime,
            delivery_limit: self.delivery_limit,
            propagation_limit: self.propagation_limit,
            sync_limit: self.sync_limit,
            stamp_cost: self.stamp_cost,
            stamp_flex: self.stamp_flex,
            peering_cost: self.peering_cost,
            max_peering_cost: self.max_peering_cost,
            autopeer_maxdepth: self.autopeer_maxdepth,
            from_static_only: self.from_static_only,
            message_count: self.message_count as nat,
            message_size: self.message_size,
            storage_limit: self.storage_limit,
            total_peers: self.total_peers as nat,
            max_peers: self.max_peers,
            client_messages_received: self.client_messages_received,
            client_messages_served: self.client_messages_served,
            unpeered_incoming: self.unpeered_incoming,
            unpeered_rx_bytes: self.unpeered_rx_bytes,
            peer_stats: self.peer_stats@,
        }
    }
}

/// The time between two instants, held within the range of an `i64`.
pub open spec fn span(start: i64, now: i64) -> i64 {
    if now - start > i64::MAX {
        i64::MAX
    } else if now - start < i64::MIN {
        i64::MIN
    } else {
        (now - start) as i64
    }
}

fn time_between(start: i64, now: i64) -> (d: i64)
    ensures
        d == span(start, now),
{
    let d: i128 = now as i128 - start as i128;
    if d > i64::MAX as i128 {
        i64::MAX
    } else if d < i64::MIN as i128 {
        i64::MIN
    } else {
        d as i64
    }
}

/// What is told of a peer.
pub open spec fn stats_of(p: PeerModel, is_static: bool) -> PeerStats {
    PeerStats {
        is_static,
        state: peer_state_byte(p.state),
        alive: p.alive,
        last_heard: p.last_heard,
        next_sync_attempt: p.next_sync_attempt,
        last_sync_attempt: p.last_sync_attempt,
        sync_backoff: p.sync_backoff,
        peering_timebase: p.peering_timebase,
        link_establishment_rate: p.link_establishment_rate,
        sync_transfer_rate: p.sync_transfer_rate,
        transfer_limit: p.propagation_transfer_limit,
        sync_limit: p.propagation_sync_limit,
        stamp_cost: p.stamp_cost,
        stamp_cost_flexibility: p.stamp_cost_flexibility,
        peering_cost: p.peering_cost,
        peering_key: match p.peering_key {
            Some(k) => Some(k.value as u64),
            None => None,
        },
        rx_bytes: p.rx_bytes,
        tx_bytes: p.tx_bytes,
        offered: p.offered,
        outgoing: p.outgoing,
        incoming: p.incoming,
        unhandled: p.unhandled,
    }
}

fn peer_status(p: &LxmPeer, is_static: bool) -> (s: PeerStats)
    ensures
        s == stats_of(p@, is_static),
{
    PeerStats {
        is_static,
        state: p.state.to_byte(),
        alive: p.alive,
        last_heard: p.last_heard,
        next_sync_attempt: p.next_sync_attempt,
        last_sync_attempt: p.last_sync_attempt,
        sync_backoff: p.sync_backoff,
        peering_timebase: p.peering_timebase,
        link_establishment_rate: p.link_establishment_rate,
        sync_transfer_rate: p.sync_transfer_rate,
        transfer_limit: p.propagation_transfer_limit,
        sync_limit: p.propagation_sync_limit,
        stamp_cost: p.stamp_cost,
        stamp_cost_flexibility: p.stamp_cost_flexibility,
        peering_cost: p.peering_cost,
        peering_key: match &p.peering_key {
            Some(k) => Some(k.value as u64),
            None => None,
        },
        rx_bytes: p.rx_bytes,
        tx_bytes: p.tx_bytes,
        offered: p.offered,
        outgoing: p.outgoing,
        incoming: p.incoming,
        unhandled: p.unhandled_messages(),
    }
}

/// What is told of the peers.
pub open spec fn all_stats(
    peers: Map<[u8; 16], PeerModel>,
    static_peers: Seq<[u8; 16]>,
) -> Map<[u8; 16], PeerStats> {
    Map::new(
        |k: [u8; 16]| peers.contains_key(k),
        |k: [u8; 16]| stats_of(peers[k], static_peers.contains(k)),
    )
}

/// What a propagation node tells of itself.
pub open spec fn status_of(m: RouterModel, now: i64) -> StatsModel {
    StatsModel {
        uptime: match m.propagation_start_time {
            Some(t) => span(t, now),
            None => 0,
        },
        delivery_limit: m.config.delivery_limit_kb,
        propagation_limit: m.config.propagation_limit_kb,
        sync_limit: m.config.sync_limit_kb,
        stamp_cost: m.config.propagation_stamp_cost,
        stamp_flex: m.config.propagation_stamp_flex,
        peering_cost: m.config.ext.peering_cost,
        max_peering_cost: m.config.ext.max_peering_cost,
        autopeer_maxdepth: m.config.ext.autopeer_maxdepth,
        from_static_only: m.config.ext.from_static_only,
        message_count: m.store.len(),
        message_size: saturated(weigh(m.store, entry_bytes())),
        storage_limit: m.config.ext.message_storage_limit,
        total_peers: m.peers.len(),
        max_peers: m.config.max_peers,
        client_messages_received: m.client_received,
        client_messages_served: m.client_served,
        unpeered_incoming: m.unpeered_incoming,
        unpeered_rx_bytes: m.unpeered_rx_bytes,
        peer_stats: all_stats(m.peers, m.static_peers),
    }
}

/// The stamp costs that were announced not too long ago.
pub open spec fn fresh_costs(
    costs: Map<[u8; 16], StampCostEntry>,
    now: i64,
) -> Map<[u8; 16], StampCostEntry> {
    kept(
        costs,
        |k: [u8; 16], e: StampCostEntry|
            now - e.recorded_at < STAMP_COST_EXPIRY * MICROS_PER_SECOND,
    )
}

/// Storage without the stamp costs that were announced too long ago.
pub open spec fn with_fresh_costs(s: StorageModel, now: i64) -> StorageModel {
    StorageModel {
        stamp_costs: kept(
            s.stamp_costs,
            |k: [u8; 16], e: StoredStampCost| e.recorded_at >= before(now, STAMP_COST_EXPIRY),
        ),
        ..s
    }
}

/// Storage without the tickets that were used or expired too long ago.
pub open spec fn with_useful_tickets(s: StorageModel, now: i64) -> StorageModel {
    StorageModel {
        tickets: kept(
            s.tickets,
            |k: [u8; 16], t: Ticket| !t.used && t.expires >= before(now, TICKET_GRACE),
        ),
        ..s
    }
}

/// Whether a propagation store was cut down to what is young enough and fits.
pub open spec fn is_culled(
    store: Map<[u8; 32], PropagationEntry>,
    prioritised: Set<[u8; 16]>,
    limit: Option<usize>,
    now: i64,
    after: Map<[u8; 32], PropagationEntry>,
) -> bool {
    let fresh = fresh_entries(store, MESSAGE_EXPIRY, now);
    match limit {
        Some(most) => exists|keys: Seq<[u8; 32]>| #[trigger]
            is_overflow(fresh, most, now, prioritised, keys) && after == without(fresh, keys),
        None => after == fresh,
    }
}

/// Whether the propagation store of a router was cut down.
pub open spec fn is_store_culled(m: RouterModel, after: RouterModel, now: i64) -> bool {
    &&& after == (RouterModel { store: after.store, ..m })
    &&& is_culled(
        m.store,
        m.store_prioritised,
        m.config.ext.message_storage_limit,
        now,
        after.store,
    )
}

/// Storage without the messages that were seen too long ago.
pub open spec fn with_recent_ids(s: StorageModel, now: i64) -> StorageModel {
    StorageModel {
        delivered: not_before(s.delivered, retention_cutoff(whole_seconds(now))),
        processed: not_before(s.processed, retention_cutoff(whole_seconds(now))),
        ..s
    }
}

/// Whether the peers of a router were rotated.
pub open spec fn is_rotated(m: RouterModel, after: RouterModel) -> bool {
    if is_rotation_due(m) {
        exists|dropped: Seq<[u8; 16]>| #[trigger]
            is_rotated_out(m, dropped) && (if dropped.len() == 0 {
                after == m
            } else {
                is_checkpointed(without_peers(m, dropped), after)
            })
    } else {
        after == m
    }
}

/// Whether a round of periodic jobs led from one state to another, by way of the states in
/// between.  Which jobs run depends on how many rounds there were.
pub open spec fn is_job_round(
    m: RouterModel,
    a: RouterModel,
    b: RouterModel,
    c: RouterModel,
    after: RouterModel,
    now: i64,
) -> bool {
    &&& if m.processing_count % JOB_TRANSIENT_INTERVAL == 0 {
        tries(m, a, with_recent_ids(m.storage, now))
    } else {
        a == m
    }
    &&& if m.processing_count % JOB_STORE_INTERVAL == 0 && m.config.propagation_enabled {
        is_store_culled(a, b, now)
    } else {
        b == a
    }
    &&& if m.processing_count % JOB_PEERSYNC_INTERVAL == 0 {
        c == (RouterModel { throttled: still_throttled(b.throttled, now), ..b })
    } else {
        c == b
    }
    &&& if m.processing_count % JOB_ROTATE_INTERVAL == 0 && m.config.propagation_enabled {
        is_rotated(c, after)
    } else {
        after == c
    }
}

/// Whether a round of periodic jobs led from one state to another.
pub open spec fn runs_jobs(m: RouterModel, after: RouterModel, now: i64) -> bool {
    exists|a: RouterModel, b: RouterModel, c: RouterModel| #[trigger]
        is_job_round(m, a, b, c, after, now)
}

/// Whether one turn of a router led from one state to another, by way of the states in
/// between: stamps, the queue, and the periodic jobs.
pub open spec fn is_turn<G: FnOnce(&[u8; 32], u8) -> Option<([u8; 32], u32)>>(
    m: RouterModel,
    a: RouterModel,
    b: RouterModel,
    c: RouterModel,
    d: RouterModel,
    e: RouterModel,
    after: RouterModel,
    now: i64,
    result: DeferredStampResult,
    can_start: bool,
    generate: G,
    job: Option<DeferredStampJob>,
    actions: Seq<ActionModel>,
) -> bool {
    &&& is_stamp_round(
        RouterModel { processing_count: (m.processing_count + 1) as u64, ..m },
        a,
        b,
        c,
        d,
        now,
        result,
        can_start,
        generate,
        job,
    )
    &&& is_processed(d, e, now, true, actions)
    &&& runs_jobs(e, after, now)
}

impl<S: LxmfStorage> LxmRouter<S> {
    /// What the propagation node tells of itself, where propagation is on.
    pub fn control_status_at(&self, now: i64) -> (r: Option<NodeStats>)
        ensures
            r is Some <==> self@.config.propagation_enabled,
            r matches Some(s) ==> s@ == status_of(self@, now),
    {
        if !self.config.propagation_enabled {
            return None;
        }
        let peer_stats = self.peer_statuses();
        let s = NodeStats {
            uptime: match self.propagation_start_time {
                Some(t) => time_between(t, now),
                None => 0,
            },
            delivery_limit: self.config.delivery_limit_kb,
            propagation_limit: self.config.propagation_limit_kb,
            sync_limit: self.config.sync_limit_kb,
            stamp_cost: self.config.propagation_stamp_cost,
            stamp_flex: self.config.propagation_stamp_flex,
            peering_cost: self.config.ext.peering_cost,
            max_peering_cost: self.config.ext.max_peering_cost,
            autopeer_maxdepth: self.config.ext.autopeer_maxdepth,
            from_static_only: self.config.ext.from_static_only,
            message_count: self.propagation_store.len(),
            message_size: self.propagation_store.total_size(),
            storage_limit: self.config.ext.message_storage_limit,
            total_peers: self.peers.len(),
            max_peers: self.config.max_peers,
            client_messages_received: self.client_propagation_messages_received,
            client_messages_served: self.client_propagation_messages_served,
            unpeered_incoming: self.unpeered_propagation_incoming,
            unpeered_rx_bytes: self.unpeered_propagation_rx_bytes,
            peer_stats,
        };
        Some(s)
    }

    /// What is told of the peers.
    fn peer_statuses(&self) -> (t: Table<16, PeerStats>)
        ensures
            t@ == all_stats(self@.peers, self@.static_peers),
    {
        let ghost es = self.peers.entries();
        let n: usize = self.peers.len();
        let mut t: Table<16, PeerStats> = Table::new();
        let mut i: usize = 0;
        proof {
            assert(es.take(0) =~= Seq::empty());
            assert(t@ =~= all_stats(as_map(es.take(0)), self@.static_peers));
        }
        while i < n
            invariant
                i <= n,
                n == es.len(),
                es == self.peers.entries(),
                t@ == all_stats(as_map(es.take(i as int)), self@.static_peers),
            decreases n - i,
        {
            let ghost before = t@;
            let key = self.peers.key_at(i);
            let is_static = list_contains(&self.static_peers, &key);
            let status = peer_status(self.peers.value_at(i), is_static);
            t.insert(key, status);
            proof {
                let u = es.take(i + 1);
                assert(u.drop_last() =~= es.take(i as int));
                assert(u.last() == es[i as int]);
                assert(t@ =~= all_stats(as_map(u), self@.static_peers));
            }
            i = i + 1;
        }
        assert(es.take(i as int) =~= es);
        t
    }

    /// Forgets the stamp costs, and in storage the tickets, that are too old.
    pub fn cull_stamp_costs(&mut self, now: i64)
        ensures
            !old(self)@.storage_authoritative ==> final(self)@ == (RouterModel {
                stamp_costs: fresh_costs(old(self)@.stamp_costs, now),
                ..old(self)@
            }),
            old(self)@.storage_authoritative ==> exists|mid: RouterModel| #[trigger]
                tries(old(self)@, mid, with_fresh_costs(old(self)@.storage, now)) && tries(
                    mid,
                    final(self)@,
                    with_useful_tickets(mid.storage, now),
                ),
    {
        if self.storage_authoritative {
            let _ = self.storage.cull_stamp_costs_before(seconds_before(now, STAMP_COST_EXPIRY));
            let ghost mid = self@;
            assert(tries(old(self)@, mid, with_fresh_costs(old(self)@.storage, now)));
            let _ = self.storage.cull_tickets(seconds_before(now, TICKET_GRACE));
        } else {
            let ghost test = |k: [u8; 16], e: StampCostEntry|
                now - e.recorded_at < STAMP_COST_EXPIRY * MICROS_PER_SECOND;
            let keep = |k: &[u8; 16], e: &StampCostEntry| -> (b: bool)
                ensures
                    b == (now - e.recorded_at < STAMP_COST_EXPIRY * MICROS_PER_SECOND),
                {
                    (now as i128 - e.recorded_at as i128) < STAMP_COST_EXPIRY as i128
                        * MICROS_PER_SECOND as i128
                };
            self.outbound_stamp_costs.retain(keep, Ghost(test));
        }
    }

    /// Cuts the propagation store down to what is young enough and fits.
    pub fn cull_propagation(&mut self, now: i64)
        ensures
            is_store_culled(old(self)@, final(self)@, now),
    {
        self.propagation_store.cull_expired(MESSAGE_EXPIRY, now);
        match self.config.ext.message_storage_limit {
            Some(limit) => {
                self.propagation_store.cull_by_weight(limit, now);
            },
            None => {},
        }
    }

    /// Runs the periodic jobs, where enough time has passed since they last ran.
    pub fn run_jobs_tick(&mut self, now: i64)
        requires
            old(self)@.processing_count < u64::MAX,
        ensures
            now - old(self)@.last_jobs_tick < JOBS_GAP ==> final(self)@ == old(self)@,
            now - old(self)@.last_jobs_tick >= JOBS_GAP ==> runs_jobs(
                RouterModel {
                    last_jobs_tick: now,
                    processing_count: (old(self)@.processing_count + 1) as u64,
                    ..old(self)@
                },
                final(self)@,
                now,
            ),
    {
        if now as i128 - self.last_jobs_tick as i128 <= JOBS_GAP as i128 - 1 {
            return;
        }
        self.last_jobs_tick = now;
        self.processing_count = self.processing_count + 1;
        self.run_periodic_jobs(now);
    }

    /// Runs the jobs whose turn it is.
    fn run_periodic_jobs(&mut self, now: i64)
        ensures
            runs_jobs(old(self)@, final(self)@, now),
    {
        let ghost m = self@;
        let count: u64 = self.processing_count;
        if count % JOB_TRANSIENT_INTERVAL == 0 {
            let _ = self.cull_transient_ids(to_seconds(now));
        }
        let ghost a = self@;
        if count % JOB_STORE_INTERVAL == 0 && self.config.propagation_enabled {
            self.cull_propagation(now);
        }
        let ghost b = self@;
        if count % JOB_PEERSYNC_INTERVAL == 0 {
            self.clean_throttled_peers(now);
        }
        let ghost c = self@;
        if count % JOB_ROTATE_INTERVAL == 0 && self.config.propagation_enabled {
            self.rotate_peers();
        }
        assert(is_job_round(m, a, b, c, self@, now));
    }

    /// One turn: a round of stamp generation, a pass over the queue that leaves the messages
    /// for links in it, and the periodic jobs.  What is to be done for it comes back.
    pub fn tick<G>(
        &mut self,
        now: i64,
        result: DeferredStampResult,
        can_start: bool,
        generate: G,
    ) -> (r: (Option<DeferredStampJob>, Vec<OutboundAction>)) where
        G: FnOnce(&[u8; 32], u8) -> Option<([u8; 32], u32)>,

        requires
            forall|id: &[u8; 32], cost: u8| call_requires(generate, (id, cost)),
            old(self)@.processing_count < u64::MAX,
        ensures
            exists|
                a: RouterModel,
                b: RouterModel,
                c: RouterModel,
                d: RouterModel,
                e: RouterModel,
            | #[trigger]
                is_turn(
                    old(self)@,
                    a,
                    b,
                    c,
                    d,
                    e,
                    final(self)@,
                    now,
                    result,
                    can_start,
                    generate,
                    r.0,
                    action_models(r.1@),
                ),
    {
        self.processing_count = self.processing_count + 1;
        let ghost m = self@;
        let job = self.process_deferred_stamps(now, result, can_start, generate);
        let ghost d = self@;
        let ghost (x, y, z) = choose|x: RouterModel, y: RouterModel, z: RouterModel| #[trigger]
            is_stamp_round(m, x, y, z, d, now, result, can_start, generate, job);
        let actions = self.process_outbound_without_direct(now);
        let ghost e = self@;
        self.run_periodic_jobs(now);
        let r = (job, actions);
        assert(is_turn(
            old(self)@,
            x,
            y,
            z,
            d,
            e,
            self@,
            now,
            result,
            can_start,
            generate,
            r.0,
            action_models(r.1@),
        ));
        r
    }
}

// ---------------------------------------------------------------------------
// What the jobs keep.
// ---------------------------------------------------------------------------

/// Cutting the propagation store down leaves no entry that is too old and no more bytes than
/// the limit, and what it leaves is unchanged.
pub proof fn culling_respects_the_limit(
    store: Map<[u8; 32], PropagationEntry>,
    prioritised: Set<[u8; 16]>,
    limit: Option<usize>,
    now: i64,
    after: Map<[u8; 32], PropagationEntry>,
    k: [u8; 32],
)
    requires
        is_culled(store, prioritised, limit, now, after),
        store.dom().finite(),
        store.len() < usize::MAX,
        weigh(store, entry_bytes()) <= usize::MAX,
    ensures
        limit matches Some(most) ==> weigh(after, entry_bytes()) <= most,
        after.contains_key(k) ==> store.contains_key(k) && after[k] == store[k] && is_fresh(
            after[k],
            MESSAGE_EXPIRY,
            now,
        ),
{
    if let Some(most) = limit {
        let fresh = fresh_entries(store, MESSAGE_EXPIRY, now);
        let keys = choose|keys: Seq<[u8; 32]>| #[trigger]
            is_overflow(fresh, most, now, prioritised, keys) && after == without(fresh, keys);
        lemma_overflow_fits(store, MESSAGE_EXPIRY, most, now, prioritised, keys);
    }
}

/// A propagation store within its limit loses nothing but what is older than thirty days.
pub proof fn culling_keeps_what_fits(
    store: Map<[u8; 32], PropagationEntry>,
    prioritised: Set<[u8; 16]>,
    limit: Option<usize>,
    now: i64,
    after: Map<[u8; 32], PropagationEntry>,
    k: [u8; 32],
)
    requires
        is_culled(store, prioritised, limit, now, after),
        store.dom().finite(),
        limit matches Some(most) ==> weigh(store, entry_bytes()) <= most,
    ensures
        after.contains_key(k) <==> store.contains_key(k) && now - store[k].stored_at <= 30 * 24
            * 3600 * 1_000_000,
{
    match limit {
        Some(most) => {
            let fresh = fresh_entries(store, MESSAGE_EXPIRY, now);
            let keys = choose|keys: Seq<[u8; 32]>| #[trigger]
                is_overflow(fresh, most, now, prioritised, keys) && after == without(fresh, keys);
            lemma_kept_weighs_less(
                store,
                entry_bytes(),
                |k: [u8; 32], e: PropagationEntry| is_fresh(e, MESSAGE_EXPIRY, now),
            );
            if keys.len() > 0 {
                assert(total(fresh, entry_bytes(), keys.take(0)) == 0);
            }
            assert(!keys.contains(k));
        },
        None => {},
    }
}

/// Where the propagation store is over its limit, the heaviest entries go first.
pub proof fn culling_drops_the_heaviest(
    store: Map<[u8; 32], PropagationEntry>,
    prioritised: Set<[u8; 16]>,
    limit: usize,
    now: i64,
    after: Map<[u8; 32], PropagationEntry>,
    gone: [u8; 32],
    left: [u8; 32],
)
    requires
        is_culled(store, prioritised, Some(limit), now, after),
        store.contains_key(gone),
        now - store[gone].stored_at <= 30 * 24 * 3600 * 1_000_000,
        !after.contains_key(gone),
        after.contains_key(left),
    ensures
        entry_weight(store[gone], now, prioritised) >= entry_weight(store[left], now, prioritised),
{
    let fresh = fresh_entries(store, MESSAGE_EXPIRY, now);
    let keys = choose|keys: Seq<[u8; 32]>| #[trigger]
        is_overflow(fresh, limit, now, prioritised, keys) && after == without(fresh, keys);
    assert(keys.contains(gone));
    let q = choose|q: int| 0 <= q < keys.len() && keys[q] == gone;
    assert(fresh.contains_key(left) && !keys.contains(left));
    assert(heaviest_first(now, prioritised)((keys[q], fresh[keys[q]]), (left, fresh[left])));
}

/// Forgetting old costs changes no cost that is known, and forgetting old tickets takes away
/// none that admits a message; what is kept is unchanged.
pub proof fn forgetting_loses_nothing_of_use(
    m: RouterModel,
    s: StorageModel,
    destination: [u8; 16],
    now: i64,
    k: [u8; 16],
)
    requires
        now >= 45 * 24 * 3600 * 1_000_000,
    ensures
        !m.storage_authoritative ==> known_cost(
            RouterModel { stamp_costs: fresh_costs(m.stamp_costs, now), ..m },
            destination,
            now,
        ) == known_cost(m, destination, now),
        m.storage_authoritative ==> known_cost(
            RouterModel { storage: with_fresh_costs(m.storage, now), ..m },
            destination,
            now,
        ) == known_cost(m, destination, now),
        with_fresh_costs(s, now).stamp_costs.contains_key(k) ==> s.stamp_costs.contains_key(k)
            && with_fresh_costs(s, now).stamp_costs[k] == s.stamp_costs[k] && now
            - s.stamp_costs[k].recorded_at <= 45 * 24 * 3600 * 1_000_000,
        s.tickets.contains_key(k) && !s.tickets[k].used && now < s.tickets[k].expires
            ==> with_useful_tickets(s, now).tickets.contains_key(k),
        with_useful_tickets(s, now).tickets.contains_key(k) <==> s.tickets.contains_key(k)
            && !s.tickets[k].used && now - s.tickets[k].expires <= TICKET_GRACE * 1_000_000,
        with_useful_tickets(s, now).tickets.contains_key(k) ==> with_useful_tickets(
            s,
            now,
        ).tickets[k] == s.tickets[k],
        with_fresh_costs(s, now) == (StorageModel {
            stamp_costs: with_fresh_costs(s, now).stamp_costs,
            ..s
        }),
        with_useful_tickets(s, now) == (StorageModel {
            tickets: with_useful_tickets(s, now).tickets,
            ..s
        }),
{
}

/// The periodic jobs touch no message that waits, and each job runs only when its turn has
/// come: what was seen is forgotten, the propagation store cut down, and peers are rotated.
pub proof fn jobs_keep_to_their_turns(m: RouterModel, after: RouterModel, now: i64)
    requires
        runs_jobs(m, after, now),
    ensures
        after.pending == m.pending && after.deferred == m.deferred && after.notices == m.notices,
        after.storage.outbound == m.storage.outbound && after.storage.messages
            == m.storage.messages && after.storage.tickets == m.storage.tickets,
        after.processing_count == m.processing_count && after.config == m.config,
        m.processing_count % JOB_TRANSIENT_INTERVAL != 0 ==> after.storage.delivered
            == m.storage.delivered && after.storage.processed == m.storage.processed,
        m.processing_count % JOB_TRANSIENT_INTERVAL == 0 && m.reliable ==> after.storage.delivered
            == not_before(m.storage.delivered, retention_cutoff(whole_seconds(now)))
            && after.storage.processed == not_before(
            m.storage.processed,
            retention_cutoff(whole_seconds(now)),
        ),
        !(m.processing_count % JOB_STORE_INTERVAL == 0 && m.config.propagation_enabled)
            ==> after.store == m.store,
        m.processing_count % JOB_STORE_INTERVAL == 0 && m.config.propagation_enabled ==> is_culled(
            m.store,
            m.store_prioritised,
            m.config.ext.message_storage_limit,
            now,
            after.store,
        ),
        m.processing_count % JOB_PEERSYNC_INTERVAL != 0 ==> after.throttled == m.throttled,
        m.processing_count % JOB_PEERSYNC_INTERVAL == 0 ==> after.throttled == still_throttled(
            m.throttled,
            now,
        ),
        !(m.processing_count % JOB_ROTATE_INTERVAL == 0 && m.config.propagation_enabled)
            ==> after.peers == m.peers,
        m.processing_count % JOB_ROTATE_INTERVAL == 0 && m.config.propagation_enabled
            && is_rotation_due(m) ==> exists|dropped: Seq<[u8; 16]>| #[trigger]
            is_rotated_out(m, dropped) && after.peers == without(m.peers, dropped),
{
    let (a, b, c) = choose|a: RouterModel, b: RouterModel, c: RouterModel| #[trigger]
        is_job_round(m, a, b, c, after, now);
    assert(is_job_round(m, a, b, c, after, now));
    if m.processing_count % JOB_ROTATE_INTERVAL == 0 && m.config.propagation_enabled
        && is_rotation_due(m) {
        let dropped = choose|dropped: Seq<[u8; 16]>| #[trigger]
            is_rotated_out(c, dropped) && (if dropped.len() == 0 {
                after == c
            } else {
                is_checkpointed(without_peers(c, dropped), after)
            });
        assert(is_rotated_out(m, dropped)) by {
            let worst = choose|worst: Seq<[u8; 16]>| #[trigger]
                first(
                    c.peers,
                    may_drop(c.static_peers),
                    by_acceptance(),
                    drop_count(c),
                    worst,
                ) && dropped == worst.filter(poor_in(c.peers));
            assert(first(
                m.peers,
                may_drop(m.static_peers),
                by_acceptance(),
                drop_count(m),
                worst,
            ));
        }
        assert(without(m.peers, Seq::<[u8; 16]>::empty()) =~= m.peers);
        if dropped.len() == 0 {
            assert(dropped =~= Seq::<[u8; 16]>::empty());
        }
    }
}

/// A turn leaves the messages that are delivered over a link to others: it neither hands them
/// on nor plans them.
pub proof fn turns_leave_links_alone<G: FnOnce(&[u8; 32], u8) -> Option<([u8; 32], u32)>>(
    m: RouterModel,
    a: RouterModel,
    b: RouterModel,
    c: RouterModel,
    d: RouterModel,
    e: RouterModel,
    after: RouterModel,
    now: i64,
    result: DeferredStampResult,
    can_start: bool,
    generate: G,
    job: Option<DeferredStampJob>,
    actions: Seq<ActionModel>,
    k: int,
)
    requires
        is_turn(m, a, b, c, d, e, after, now, result, can_start, generate, job, actions),
        0 <= k < actions.len(),
    ensures
        !(actions[k] is DeliverDirect) && !(actions[k] is PlanDirect),
        d.config.ext.processing_outbound,
{
    if d.config.ext.processing_outbound {
        let h = choose|h: RouterModel| #[trigger]
            is_hydrated(d, h, now) && is_swept(h, e, now, true, actions);
        passes_do_nothing_uncalled_for(
            h.pending,
            h.config.ext.processing_limit,
            now,
            h.outbound_propagation_node,
            true,
            k,
        );
    }
}

/// A node tells its limits, costs and counts as they are, how long it has run, and of each peer
/// what it knows of it.
pub proof fn nodes_tell_what_they_know(m: RouterModel, now: i64, k: [u8; 16])
    requires
        m.propagation_start_time is Some,
        0 <= m.propagation_start_time->0 <= now,
    ensures
        ({
            let s = status_of(m, now);
            let p = m.peers[k];
            let t = s.peer_stats[k];
            &&& s.uptime == now - m.propagation_start_time->0
            &&& s.delivery_limit == m.config.delivery_limit_kb && s.propagation_limit
                == m.config.propagation_limit_kb && s.sync_limit == m.config.sync_limit_kb
            &&& s.stamp_cost == m.config.propagation_stamp_cost && s.stamp_flex
                == m.config.propagation_stamp_flex
            &&& s.peering_cost == m.config.ext.peering_cost && s.max_peering_cost
                == m.config.ext.max_peering_cost
            &&& s.message_count == m.store.len() && s.total_peers == m.peers.len() && s.max_peers
                == m.config.max_peers
            &&& s.storage_limit == m.config.ext.message_storage_limit
            &&& s.client_messages_received == m.client_received && s.client_messages_served
                == m.client_served
            &&& s.unpeered_incoming == m.unpeered_incoming && s.unpeered_rx_bytes
                == m.unpeered_rx_bytes
            &&& s.peer_stats.contains_key(k) <==> m.peers.contains_key(k)
            &&& m.peers.contains_key(k) ==> {
                &&& t.is_static <==> m.static_peers.contains(k)
                &&& t.state == peer_state_byte(p.state) && t.alive == p.alive
                &&& t.last_heard == p.last_heard && t.last_sync_attempt == p.last_sync_attempt
                    && t.next_sync_attempt == p.next_sync_attempt
                &&& t.transfer_limit == p.propagation_transfer_limit && t.sync_limit
                    == p.propagation_sync_limit
                &&& t.stamp_cost == p.stamp_cost && t.peering_cost == p.peering_cost
                &&& t.rx_bytes == p.rx_bytes && t.tx_bytes == p.tx_bytes
                &&& t.offered == p.offered && t.outgoing == p.outgoing && t.incoming == p.incoming
                    && t.unhandled == p.unhandled
                &&& p.peering_key matches Some(key) ==> t.peering_key == Some(key.value as u64)
                &&& p.peering_key is None ==> t.peering_key is None
            }
        }),
{
}

/// A turn is counted, stamps first, then deals with the queue and then runs the jobs, each on
/// what the one before left.
pub proof fn turns_go_in_order<G: FnOnce(&[u8; 32], u8) -> Option<([u8; 32], u32)>>(
    m: RouterModel,
    a: RouterModel,
    b: RouterModel,
    c: RouterModel,
    d: RouterModel,
    e: RouterModel,
    after: RouterModel,
    now: i64,
    result: DeferredStampResult,
    can_start: bool,
    generate: G,
    job: Option<DeferredStampJob>,
    actions: Seq<ActionModel>,
)
    requires
        m.processing_count < u64::MAX,
        is_turn(m, a, b, c, d, e, after, now, result, can_start, generate, job, actions),
    ensures
        exists|counted: RouterModel| #[trigger]
            is_stamp_round(counted, a, b, c, d, now, result, can_start, generate, job)
                && counted.processing_count == m.processing_count + 1 && counted == (RouterModel {
                processing_count: counted.processing_count,
                ..m
            }),
        is_processed(d, e, now, true, actions),
        runs_jobs(e, after, now),
{
    let counted = RouterModel { processing_count: (m.processing_count + 1) as u64, ..m };
    assert(is_stamp_round(counted, a, b, c, d, now, result, can_start, generate, job));
}

/// What a node tells of itself and of its peers leaves nothing out, and a node that was not
/// started has not been up.
pub proof fn nodes_tell_all_they_know(m: RouterModel, now: i64, k: [u8; 16])
    requires
        m.peers.contains_key(k),
    ensures
        ({
            let s = status_of(m, now);
            let p = m.peers[k];
            let t = s.peer_stats[k];
            &&& m.propagation_start_time is None ==> s.uptime == 0
            &&& s.autopeer_maxdepth == m.config.ext.autopeer_maxdepth && s.from_static_only
                == m.config.ext.from_static_only
            &&& weigh(m.store, entry_bytes()) <= usize::MAX ==> s.message_size == weigh(
                m.store,
                entry_bytes(),
            )
            &&& t.sync_backoff == p.sync_backoff && t.peering_timebase == p.peering_timebase
            &&& t.link_establishment_rate == p.link_establishment_rate && t.sync_transfer_rate
                == p.sync_transfer_rate
            &&& t.stamp_cost_flexibility == p.stamp_cost_flexibility
        }),
{
}

/// Costs are forgotten once they are 45 days old, in memory and in storage, and those that are
/// not stay as they are.
pub proof fn costs_are_forgotten_by_age(
    costs: Map<[u8; 16], StampCostEntry>,
    s: StorageModel,
    now: i64,
    k: [u8; 16],
)
    requires
        now >= 45 * 24 * 3600 * 1_000_000,
    ensures
        fresh_costs(costs, now).contains_key(k) <==> costs.contains_key(k) && now
            - costs[k].recorded_at < 45 * 24 * 3600 * 1_000_000,
        fresh_costs(costs, now).contains_key(k) ==> fresh_costs(costs, now)[k] == costs[k],
        with_fresh_costs(s, now).stamp_costs.contains_key(k) <==> s.stamp_costs.contains_key(k)
            && now - s.stamp_costs[k].recorded_at <= 45 * 24 * 3600 * 1_000_000,
{
}

} // verus!
