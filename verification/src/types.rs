//! Names for the identifiers that the protocol uses.

use vstd::prelude::*;

verus! {

/// Hash of a destination or an identity.
pub type DestinationHash = [u8; 16];

/// Hash that identifies a message.
pub type MessageId = [u8; 32];

/// Hash that identifies a message in the propagation protocol.
pub type PropagationTransientId = [u8; 32];

} // verus!
