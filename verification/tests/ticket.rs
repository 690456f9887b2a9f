//! Tickets and their store.

use lxmf_core::constants::TICKET_GRACE;
use lxmf_core::ticket::{Ticket, TicketStore};

const SECOND: i64 = 1_000_000;

#[test]
fn test_ticket_validity() {
    let ticket = Ticket::new([0xAA; 16], [0xBB; 16], 1000 * SECOND);
    assert!(ticket.is_valid(999 * SECOND));
    assert!(!ticket.is_valid(1001 * SECOND));
}

#[test]
fn test_ticket_used() {
    let mut ticket = Ticket::new([0xAA; 16], [0xBB; 16], 1000 * SECOND);
    assert!(ticket.is_valid(500 * SECOND));
    ticket.used = true;
    assert!(!ticket.is_valid(500 * SECOND));
}

#[test]
fn test_ticket_renew() {
    let expires = 2_000_000 * SECOND;
    let ticket = Ticket::new([0xAA; 16], [0xBB; 16], expires);
    assert!(ticket.should_renew(expires - SECOND));
    assert!(!ticket.should_renew(0));
}

#[test]
fn test_ticket_store() {
    let mut store = TicketStore::new();
    let dest = [0xBB; 16];

    store.add(Ticket::new([0x01; 16], dest, 1000 * SECOND));
    store.add(Ticket::new([0x02; 16], dest, 2000 * SECOND));
    store.add(Ticket::new([0x03; 16], [0xCC; 16], 1500 * SECOND));

    assert_eq!(store.count_valid(500 * SECOND), 3);
    assert_eq!(store.count_valid(1500 * SECOND), 1);

    let found = store.find(&dest, 500 * SECOND);
    assert!(found.is_some());
    assert!(store.find(&[0xDD; 16], 500 * SECOND).is_none());
    assert_eq!(store.remove_destination(&dest), 2);
    assert_eq!(store.all().len(), 1);
}

#[test]
fn test_ticket_store_cull() {
    let mut store = TicketStore::new();
    store.add(Ticket::new([0x01; 16], [0xBB; 16], 100 * SECOND));
    store.add(Ticket::new([0x02; 16], [0xBB; 16], 99_999 * SECOND));

    store.cull((100 + TICKET_GRACE as i64 + 1) * SECOND);
    assert_eq!(store.count_valid((99_999 - 1) * SECOND), 1);
}
