//! Verified core of a nostr relay proxy that fans client events out to
//! many upstream relays through a set of work queues, and keeps nostr
//! wallet connect (NWC) traffic in a local store instead of broadcasting it.

use vstd::prelude::*;

pub mod error;
pub mod event;
pub mod client;
pub mod filter;
pub mod message;
pub mod nwc;
pub mod order;
pub mod queues;

verus! {

} // verus!
