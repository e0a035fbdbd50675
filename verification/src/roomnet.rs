//! Room replication, without any I/O.
//!
//! A room is a log of many writers, put in one order, with a view folded from it, and
//! the messages by which peers bring one another up to date. It is a state machine: a
//! driver feeds it what comes in and sends what it hands out, and it knows no clock and
//! no network.
pub mod catch_up;
pub mod config;
pub mod dag;
pub mod driver;
pub mod effects;
pub mod entry;
pub mod fold;
pub mod forms;
pub mod history;
pub mod hosting;
pub mod laws;
pub mod projection;
pub mod room;
pub mod server;
pub mod store;
pub mod sync;
pub mod testkit;
pub mod transport;
pub mod wire;
pub mod writes;

pub use crate::autobase::{NodeId, WriterKey};
pub use config::{Origin, RoomConfig, ServerConfig};
pub use driver::{Command, DriverOpts, Inbound, IrohConfig};
pub use entry::{Entry, EntryCodec};
pub use projection::Projection;
pub use room::{Error, Fanout, Finalized, Outbound, PeerId, Room, StoreErr};
pub use server::{RoomId, RoomServer};
pub use store::{CachedFactory, MemStoreFactory, StoreFactory};
pub use sync::SyncMessage;
pub use transport::{ProjectionSink, Transport};
