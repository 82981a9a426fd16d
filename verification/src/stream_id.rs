//! Stream identifiers: a sequence number tagged with who opened the stream and
//! which way data flows.

use vstd::prelude::*;

verus! {

/// Whether an endpoint was the initiator of a connection.
#[derive(Clone, Copy, Debug, PartialEq, Eq, Structural)]
pub enum Side {
    /// The initiator of a connection
    Client,
    /// The acceptor of a connection
    Server,
}

/// Whether a stream communicates data in both directions or only from the initiator.
#[derive(Clone, Copy, Debug, PartialEq, Eq, Structural)]
pub enum Dir {
    /// Data flows in both directions
    Bi,
    /// Data flows only from the stream's initiator
    Uni,
}

/// Identifier for a stream within a particular connection.
///
/// The two low bits carry the initiator and the directionality; the rest is
/// the sequence number among streams of the same kind.
#[derive(Clone, Copy, Debug, PartialEq, Eq, Structural)]
pub struct StreamId(pub u64);

/// Sequence numbers are below 2^62 so that the two tag bits fit above them.
pub const STREAM_INDEX_BOUND: u64 = 0x4000_0000_0000_0000;

/// The tag bit of an initiator.
pub open spec fn spec_side_bit(side: Side) -> u64 {
    match side {
        Side::Client => 0,
        Side::Server => 1,
    }
}

/// The tag bit of a directionality.
pub open spec fn spec_dir_bit(dir: Dir) -> u64 {
    match dir {
        Dir::Bi => 0,
        Dir::Uni => 1,
    }
}

/// The raw value that encodes the triple (initiator, direction, sequence).
pub open spec fn spec_stream_raw(initiator: Side, dir: Dir, index: u64) -> int {
    4 * index + 2 * spec_dir_bit(dir) + spec_side_bit(initiator)
}

impl StreamId {
    /// Which side opened the stream, read off the raw value.
    pub open spec fn spec_initiator(self) -> Side {
        if self.0 % 2 == 0 {
            Side::Client
        } else {
            Side::Server
        }
    }

    /// Which way data flows, read off the raw value.
    pub open spec fn spec_dir(self) -> Dir {
        if (self.0 / 2) % 2 == 0 {
            Dir::Bi
        } else {
            Dir::Uni
        }
    }

    /// The sequence number, read off the raw value.
    pub open spec fn spec_index(self) -> u64 {
        self.0 / 4
    }

    /// Create a new StreamId.
    pub fn new(initiator: Side, dir: Dir, index: u64) -> (id: StreamId)
        requires
            index < STREAM_INDEX_BOUND,
        ensures
            id.0 == spec_stream_raw(initiator, dir, index),
            id.spec_initiator() == initiator,
            id.spec_dir() == dir,
            id.spec_index() == index,
    {
        let d: u64 = match dir {
            Dir::Bi => 0,
            Dir::Uni => 1,
        };
        let s: u64 = match initiator {
            Side::Client => 0,
            Side::Server => 1,
        };
        StreamId(index * 4 + d * 2 + s)
    }

    /// Which side of a connection initiated the stream.
    pub fn initiator(self) -> (side: Side)
        ensures
            side == self.spec_initiator(),
    {
        if self.0 % 2 == 0 {
            Side::Client
        } else {
            Side::Server
        }
    }

    /// Which directions data flows in.
    pub fn dir(self) -> (dir: Dir)
        ensures
            dir == self.spec_dir(),
    {
        if (self.0 / 2) % 2 == 0 {
            Dir::Bi
        } else {
            Dir::Uni
        }
    }

    /// Distinguishes streams of the same initiator and directionality.
    pub fn index(self) -> (index: u64)
        ensures
            index == self.spec_index(),
    {
        self.0 / 4
    }
}

/// Every raw value is the encoding of exactly the triple that its accessors
/// report: decoding and encoding again gives the value back.
pub proof fn law_stream_id_roundtrip(id: StreamId)
    ensures
        spec_stream_raw(id.spec_initiator(), id.spec_dir(), id.spec_index()) == id.0,
{
}

} // verus!
