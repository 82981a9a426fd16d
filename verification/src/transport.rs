//! The socket as the drivers see it.

use crate::platform::{Addr, RecvMeta, SocketCapabilities, Transmit};
use vstd::prelude::*;

verus! {

/// A socket failure that is no mere would-block.
#[derive(Clone, Copy, Debug, PartialEq, Eq, Structural)]
pub enum SocketError {
    /// The operation is not permitted
    PermissionDenied,
    /// The destination cannot be reached
    Unreachable,
    /// Any other failure
    Other,
}

/// Whether an operation finished or must wait.
#[derive(Clone, Copy, Debug, PartialEq, Eq, Structural)]
pub enum Poll<T> {
    /// It finished with this result
    Ready(T),
    /// It would block; the caller is resumed when it is worth trying again
    Pending,
}

/// A socket that abstracts the underlying connection.
///
/// Both operations may be called while the other one runs. Partial sends and
/// receives are legal: the caller retries what is left. The drivers rely on
/// nothing that an implementation might get wrong: a count that exceeds what
/// was handed over is cut down to it.
pub trait Socket: Send + 'static {
    /// Send `transmits`, oldest first; returns how many of them, from the
    /// front, were sent.
    fn poll_send(&self, transmits: &Vec<Transmit>) -> Poll<Result<usize, SocketError>>;

    /// Receive into `bufs` and describe what came in `meta`; returns how many
    /// datagrams were received. Datagram `i` fills the first `meta[i].len`
    /// bytes of `bufs[i]`.
    fn poll_recv(&self, bufs: &mut Vec<Vec<u8>>, meta: &mut Vec<RecvMeta>) -> Poll<
        Result<usize, SocketError>,
    >;

    /// The socket address of the local endpoint.
    fn local_addr(&self) -> Result<Addr, SocketError>;

    /// The capabilities of the socket's platform. A socket without
    /// segmentation offload sends one datagram per call.
    fn caps() -> (c: SocketCapabilities)
        default_ensures
            c.max_gso_segments == 1,
    {
        SocketCapabilities { max_gso_segments: 1 }
    }
}

} // verus!
