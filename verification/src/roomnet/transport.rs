//! What a driver puts under a room.
use vstd::prelude::*;
use super::room::{Outbound, PeerId};
use super::sync::SyncMessage;

verus! {

/// How messages move. A room takes in what peers say and hands out what to send; a driver
/// carries both over a network.
pub trait Transport {
    type Error;

    /// Send a message where it is to go.
    fn send(&mut self, out: Outbound) -> Result<(), Self::Error>;

    /// What has come in since the last call.
    fn recv(&mut self) -> Vec<(PeerId, SyncMessage)>;
}

/// Where views of what is final are kept, one for each version.
pub trait ProjectionSink<State> {
    type Error;

    /// Keep a view. Versions go up.
    fn write(&mut self, version: u64, state: &State) -> Result<(), Self::Error>;
}

} // verus!
