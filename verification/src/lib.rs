//! Core logic of a price-feed gateway: a registry of client subscription
//! sets, the upstream connector's state machine, and the wire codec for
//! subscribe requests and price-feed updates.

use vstd::prelude::*;

pub mod feeds;
pub mod messages;
pub mod numcodec;
pub mod codec;
pub mod msgcodec;
pub mod connector;
pub mod handler;
pub mod laws;

verus! {

/// A 256-bit price-feed identifier, held as four 64-bit limbs,
/// most significant first.
#[derive(Clone, Copy, PartialEq, Eq, Structural, Hash, Debug)]
pub struct FeedId {
    pub w0: u64,
    pub w1: u64,
    pub w2: u64,
    pub w3: u64,
}

impl FeedId {
    /// Builds an identifier from its four limbs, most significant first.
    pub fn new(w0: u64, w1: u64, w2: u64, w3: u64) -> (r: FeedId)
        ensures
            r.w0 == w0 && r.w1 == w1 && r.w2 == w2 && r.w3 == w3,
    {
        FeedId { w0, w1, w2, w3 }
    }
}

} // verus!
