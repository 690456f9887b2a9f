//! Message delivery, storage and propagation for LXMF.
//!
//! Every module states what it computes as a contract and proves it.  Network,
//! file and database access, wall-clock time and floating point stay with the
//! embedding program, which hands plain values in and takes plain values back.

pub mod bytes;
pub mod clock;
pub mod constants;
pub mod container;
pub mod crypto;
pub mod delivery_ratchet;
pub mod fields;
pub mod memory;
pub mod message;
pub mod msgpack;
pub mod number;
pub mod paper;
pub mod payload;
pub mod peer;
pub mod propagated;
pub mod propagation;
pub mod propagation_client;
pub mod propagation_node;
pub mod propagation_sync;
pub mod record;
pub mod router;
pub mod select;
pub mod storage;
pub mod sync;
pub mod table;
pub mod ticket;
pub mod types;
