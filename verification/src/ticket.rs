//! Delivery tickets: shared 16-byte tokens that stand in for a proof of work.
//!
//! A ticket can be used any number of times until it expires.

use vstd::prelude::*;

use crate::bytes::same;
use crate::constants::{MICROS_PER_SECOND, TICKET_GRACE, TICKET_RENEW};

verus! {

/// A ticket.
#[derive(Debug, Clone, Copy)]
pub struct Ticket {
    pub token: [u8; 16],
    pub destination_hash: [u8; 16],
    /// When the ticket expires, in microseconds since the Unix epoch.
    pub expires: i64,
    pub used: bool,
}

impl View for Ticket {
    type V = Ticket;

    open spec fn view(&self) -> Ticket {
        *self
    }
}

impl Ticket {
    /// Whether the ticket admits a message at `now`.
    pub open spec fn valid_at(self, now: i64) -> bool {
        !self.used && now < self.expires
    }

    /// An unused ticket.
    pub fn new(token: [u8; 16], destination_hash: [u8; 16], expires: i64) -> (t: Self)
        ensures
            t == (Ticket { token, destination_hash, expires, used: false }),
    {
        Ticket { token, destination_hash, expires, used: false }
    }

    /// Whether the ticket admits a message at `now`.
    pub fn is_valid(&self, now: i64) -> (b: bool)
        ensures
            b == self.valid_at(now),
    {
        !self.used && now < self.expires
    }

    /// Whether the ticket is valid and about to expire.
    pub fn should_renew(&self, now: i64) -> (b: bool)
        ensures
            b == (self.valid_at(now) && self.expires - now < TICKET_RENEW * MICROS_PER_SECOND),
    {
        self.is_valid(now) && (self.expires as i128 - now as i128) < TICKET_RENEW as i128
            * MICROS_PER_SECOND as i128
    }
}

/// Whether a ticket for `destination` admits a message at `now`.
pub open spec fn admits(t: Ticket, destination: [u8; 16], now: i64) -> bool {
    t.destination_hash == destination && t.valid_at(now)
}

/// Whether a ticket is still worth keeping at `now`.
pub open spec fn worth_keeping(t: Ticket, now: i64) -> bool {
    !t.used && now < t.expires + TICKET_GRACE * MICROS_PER_SECOND
}

/// The tickets that were received, oldest first.
#[derive(Debug)]
pub struct TicketStore {
    tickets: Vec<Ticket>,
}

impl View for TicketStore {
    type V = Seq<Ticket>;

    closed spec fn view(&self) -> Seq<Ticket> {
        self.tickets@
    }
}

impl TicketStore {
    /// An empty store.
    pub fn new() -> (s: Self)
        ensures
            s@ == Seq::<Ticket>::empty(),
    {
        TicketStore { tickets: Vec::new() }
    }

    /// Adds a ticket.
    pub fn add(&mut self, ticket: Ticket)
        ensures
            final(self)@ == old(self)@.push(ticket),
    {
        self.tickets.push(ticket);
    }

    /// The oldest ticket for a destination that is valid at `now`.
    pub fn find(&self, destination_hash: &[u8; 16], now: i64) -> (r: Option<&Ticket>)
        ensures
            r is None ==> forall|i: int|
                0 <= i < self@.len() ==> !admits(#[trigger] self@[i], *destination_hash, now),
            r matches Some(t) ==> exists|i: int|
                0 <= i < self@.len() && #[trigger] self@[i] == *t && admits(
                    *t,
                    *destination_hash,
                    now,
                ) && forall|j: int|
                    0 <= j < i ==> !admits(#[trigger] self@[j], *destination_hash, now),
    {
        let mut i: usize = 0;
        while i < self.tickets.len()
            invariant
                i <= self.tickets@.len(),
                forall|j: int|
                    0 <= j < i ==> !admits(#[trigger] self@[j], *destination_hash, now),
            decreases self.tickets@.len() - i,
        {
            if same(&self.tickets[i].destination_hash, destination_hash)
                && self.tickets[i].is_valid(now) {
                assert(self@[i as int] == self.tickets@[i as int]);
                return Some(&self.tickets[i]);
            }
            i = i + 1;
        }
        None
    }

    /// Drops used tickets and those that expired longer ago than the grace period.
    pub fn cull(&mut self, now: i64)
        ensures
            final(self)@ == old(self)@.filter(|t: Ticket| worth_keeping(t, now)),
    {
        let ghost before = self.tickets@;
        let ghost keep = |t: Ticket| worth_keeping(t, now);
        let mut kept: Vec<Ticket> = Vec::new();
        let mut i: usize = 0;
        while i < self.tickets.len()
            invariant
                i <= self.tickets@.len(),
                self.tickets@ == before,
                keep == (|t: Ticket| worth_keeping(t, now)),
                kept@ == before.take(i as int).filter(keep),
            decreases self.tickets@.len() - i,
        {
            proof {
                assert(before.take(i + 1).drop_last() =~= before.take(i as int));
                reveal(Seq::filter);
            }
            let t = self.tickets[i];
            if !t.used && (now as i128) < t.expires as i128 + TICKET_GRACE as i128
                * MICROS_PER_SECOND as i128 {
                kept.push(t);
            }
            i = i + 1;
        }
        assert(before.take(i as int) =~= before);
        self.tickets = kept;
    }

    /// The number of tickets that are valid at `now`.
    pub fn count_valid(&self, now: i64) -> (n: usize)
        ensures
            n == self@.filter(|t: Ticket| t.valid_at(now)).len(),
    {
        let ghost valid = |t: Ticket| t.valid_at(now);
        let mut n: usize = 0;
        let mut i: usize = 0;
        proof {
            reveal(Seq::filter);
        }
        while i < self.tickets.len()
            invariant
                i <= self.tickets@.len(),
                n <= i,
                valid == (|t: Ticket| t.valid_at(now)),
                n == self.tickets@.take(i as int).filter(valid).len(),
            decreases self.tickets@.len() - i,
        {
            proof {
                assert(self.tickets@.take(i + 1).drop_last() =~= self.tickets@.take(i as int));
                reveal(Seq::filter);
            }
            if self.tickets[i].is_valid(now) {
                n = n + 1;
            }
            i = i + 1;
        }
        assert(self.tickets@.take(i as int) =~= self.tickets@);
        n
    }

    /// Drops the tickets for a destination and tells how many there were.
    pub fn remove_destination(&mut self, destination_hash: &[u8; 16]) -> (n: usize)
        ensures
            final(self)@ == old(self)@.filter(
                |t: Ticket| t.destination_hash != *destination_hash,
            ),
            n == old(self)@.len() - final(self)@.len(),
    {
        let ghost before = self.tickets@;
        let ghost keep = |t: Ticket| t.destination_hash != *destination_hash;
        let mut kept: Vec<Ticket> = Vec::new();
        let mut i: usize = 0;
        let mut n: usize = 0;
        while i < self.tickets.len()
            invariant
                i <= self.tickets@.len(),
                self.tickets@ == before,
                keep == (|t: Ticket| t.destination_hash != *destination_hash),
                kept@ == before.take(i as int).filter(keep),
                n + kept@.len() == i,
            decreases self.tickets@.len() - i,
        {
            proof {
                assert(before.take(i + 1).drop_last() =~= before.take(i as int));
                reveal(Seq::filter);
            }
            let t = self.tickets[i];
            if same(&t.destination_hash, destination_hash) {
                n = n + 1;
            } else {
                kept.push(t);
            }
            i = i + 1;
        }
        assert(before.take(i as int) =~= before);
        self.tickets = kept;
        n
    }

    /// All tickets, expired and used ones too.
    pub fn all(&self) -> (r: &Vec<Ticket>)
        ensures
            r@ == self@,
    {
        &self.tickets
    }
}

/// A ticket admits a message to its own destination until it expires, however often, unless it
/// was marked as used.
pub proof fn tickets_admit_until_they_expire(t: Ticket, destination: [u8; 16], now: i64)
    ensures
        admits(t, destination, now) <==> t.destination_hash == destination && !t.used && now
            < t.expires,
{
}

/// No ticket that admits a message is dropped, nor one within the days of grace after it
/// expired; a used ticket, and one that expired before that, is.
pub proof fn tickets_are_kept_for_their_grace(t: Ticket, now: i64)
    ensures
        t.valid_at(now) ==> worth_keeping(t, now),
        worth_keeping(t, now) <==> !t.used && now - t.expires < TICKET_GRACE * 1_000_000,
{
}

} // verus!
