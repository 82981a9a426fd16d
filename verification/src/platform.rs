//! Plain-value descriptions of what a datagram socket sends, receives and can do.

use vstd::prelude::*;

verus! {

/// An IP address as a number: 32 bits for version 4, 128 bits for version 6.
#[derive(Clone, Copy, Debug, PartialEq, Eq, Structural)]
pub enum Ip {
    /// An IPv4 address
    V4(u32),
    /// An IPv6 address
    V6(u128),
}

/// The address of a datagram's sender or receiver.
#[derive(Clone, Copy, Debug, PartialEq, Eq, Structural)]
pub struct Addr {
    /// The host
    pub ip: Ip,
    /// The UDP port
    pub port: u16,
}

/// Explicit congestion notification codepoint.
#[derive(Clone, Copy, Debug, PartialEq, Eq, Structural)]
pub enum EcnCodepoint {
    /// ECN-capable transport, codepoint 0
    Ect0,
    /// ECN-capable transport, codepoint 1
    Ect1,
    /// Congestion experienced
    Ce,
}

/// Metadata of one received datagram.
#[derive(Clone, Copy, Debug, PartialEq, Eq, Structural)]
pub struct RecvMeta {
    /// Where the datagram came from
    pub addr: Addr,
    /// How many bytes of the buffer the datagram fills
    pub len: usize,
    /// The congestion marking it arrived with
    pub ecn: Option<EcnCodepoint>,
    /// The local address it was sent to, where the platform reports it
    pub dst_ip: Option<Ip>,
}

/// An outgoing datagram, or several of equal size in one buffer.
#[derive(Clone, Debug, PartialEq, Eq)]
pub struct Transmit {
    /// The socket this datagram should be sent to
    pub destination: Addr,
    /// Explicit congestion notification bits to set on the packet
    pub ecn: Option<EcnCodepoint>,
    /// Contents of the datagram
    pub contents: Vec<u8>,
    /// The segment size if this transmission contains multiple datagrams.
    /// This is `None` if the transmit only contains a single datagram
    pub segment_size: Option<usize>,
    /// Optional source IP address for the datagram
    pub src_ip: Option<Ip>,
}

/// The capabilities a socket and its platform have.
#[derive(Clone, Copy, Debug, PartialEq, Eq, Structural)]
pub struct SocketCapabilities {
    /// The maximum amount of segments which can be transmitted if a platform
    /// supports Generic Send Offload. This is 1 if the platform has no such
    /// offload.
    pub max_gso_segments: usize,
}

/// The number of datagrams that a transmit of `len` bytes holds when cut into
/// segments of `segment` bytes; one, where it is not segmented.
pub open spec fn spec_datagram_count(len: nat, segment: Option<usize>) -> nat {
    match segment {
        None => 1,
        Some(size) => if size == 0 {
            1
        } else {
            ((len + size - 1) / (size as int)) as nat
        },
    }
}

impl Transmit {
    /// The number of datagrams this transmit puts on the wire. A segment size
    /// of zero cannot cut anything and counts as unsegmented.
    pub fn datagram_count(&self) -> (n: usize)
        ensures
            n == spec_datagram_count(self.contents@.len(), self.segment_size),
    {
        match self.segment_size {
            None => 1,
            Some(size) => {
                if size == 0 {
                    1
                } else {
                    let len: usize = self.contents.len();
                    let whole: usize = len / size;
                    let rest: usize = len % size;
                    assert(len == whole * size + rest && rest < size && (rest > 0 ==> whole < len))
                        by (nonlinear_arith)
                        requires
                            size > 0,
                            whole == (len as int) / (size as int),
                            rest == (len as int) % (size as int),
                    ;
                    let n: usize = if rest == 0 {
                        whole
                    } else {
                        whole + 1
                    };
                    assert(n == (len + size - 1) / (size as int)) by (nonlinear_arith)
                        requires
                            size > 0,
                            len == whole * size + rest,
                            rest < size,
                            n == if rest == 0 {
                                whole as int
                            } else {
                                whole + 1
                            },
                    ;
                    n
                }
            },
        }
    }
}

} // verus!
