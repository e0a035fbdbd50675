//! Settings of a room and of a server of rooms.
use core::time::Duration;
use vstd::prelude::*;
use crate::autobase::WriterKey;
use crate::identity::SecretKey;

verus! {

/// Where a room comes from: it is hosted here, or was pulled from a peer.
///
/// An original room is never dropped on its own. A replicated one is a cache entry that
/// may be dropped after some time without activity. The room only keeps the setting and
/// counts activity; the driver has the clock.
#[derive(Clone, Debug, PartialEq, Eq)]
pub enum Origin {
    /// Hosted here.
    Original,
    /// Pulled from a peer on demand. `None` means to keep it until it is dropped by hand.
    Replicated { delete_on_stale_after: Option<Duration> },
}

/// Settings of one room.
pub struct RoomConfig {
    /// Who writes here.
    pub identity: SecretKey,
    /// The writers whose references count as votes. With none, nothing is ever final.
    pub indexers: Vec<WriterKey>,
    pub origin: Origin,
}

impl RoomConfig {
    /// A room that is hosted here.
    pub fn original(identity: SecretKey, indexers: Vec<WriterKey>) -> (c: Self)
        ensures
            c.identity == identity,
            c.indexers == indexers,
            c.origin == Origin::Original,
    {
        RoomConfig { identity, indexers, origin: Origin::Original }
    }

    /// A room that is pulled from a peer.
    pub fn replicated(
        identity: SecretKey,
        indexers: Vec<WriterKey>,
        delete_on_stale_after: Option<Duration>,
    ) -> (c: Self)
        ensures
            c.identity == identity,
            c.indexers == indexers,
            c.origin == (Origin::Replicated { delete_on_stale_after }),
    {
        RoomConfig { identity, indexers, origin: Origin::Replicated { delete_on_stale_after } }
    }
}

/// Settings of a server of rooms.
pub struct ServerConfig {
    /// The seed of the key that writes in every room.
    pub identity_seed: [u8; 32],
    /// The writers whose references count as votes, in every room.
    pub indexers: Vec<WriterKey>,
    /// How long a replicated room may be without activity.
    pub replica_stale_after: Option<Duration>,
}

} // verus!
