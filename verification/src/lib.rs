//! A message bus for market data: the wire protocol, the ring that fans messages out, the
//! decisions that the bus takes about its connections, and the arithmetic of its benchmarks.

pub mod clock;
pub mod codec;
pub mod config;
pub mod dispatch;
pub mod frame;
pub mod header;
pub mod le;
pub mod load;
pub mod messages;
pub mod outbox;
pub mod registry;
pub mod ring;
pub mod ring_laws;
pub mod samples;
pub mod session;
pub mod types;

pub use codec::{Decode, Encode};
pub use header::{MsgHeader, HEADER_SIZE};
pub use types::MsgType;
