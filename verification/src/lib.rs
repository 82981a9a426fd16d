//! Runtime-independent core of a QUIC transport driver.
//!
//! The protocol engine decides what bytes travel and when timers fire. This
//! crate holds everything around it that can be decided without touching a
//! socket or a scheduler: how datagrams are routed to connections, how a
//! connection's turn is bounded, who is woken by which engine event, how stream
//! reads and writes map engine answers to results, and the two small
//! synchronisation state machines the drivers share. Tasks are named by
//! plain `u64` tokens; the caller owns the mapping from tokens to real wakers.

use vstd::prelude::*;

pub mod buf;
pub mod connection;
pub mod endpoint;
pub mod mutex;
pub mod notifier;
pub mod platform;
pub mod recv_stream;
pub mod send_stream;
pub mod stream_id;
pub mod table;
pub mod transport;
pub mod varint;

pub use crate::connection::{ConnectionError, ConnectionEvent, EndpointEvent};
pub use crate::platform::Transmit;
pub use crate::recv_stream::{ReadError, ReadExactError, ReadToEndError};
pub use crate::send_stream::WriteError;
pub use crate::stream_id::{Dir, Side, StreamId};
pub use crate::varint::{VarInt, VarIntBoundsExceeded};

verus! {

/// Maximum number of send/recv calls to make before moving on to other processing.
///
/// This keeps a driver from starving the rest of the scheduler when the CPU is
/// slower than the link. The value is a tunable, not a protocol constant.
pub const IO_LOOP_BOUND: usize = 10;

} // verus!
