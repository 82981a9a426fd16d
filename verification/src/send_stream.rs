//! The sending half of a stream: what a write, a finish and a reset return
//! for each answer of the engine.

use crate::connection::{ConnectionDriver, ConnectionError, DriverState};
use crate::stream_id::StreamId;
use crate::table::erase;
use crate::transport::Poll;
use crate::varint::VarInt;
use vstd::prelude::*;

verus! {

/// Errors that arise from writing to a stream.
#[derive(Clone, Copy, Debug, PartialEq, Eq, Structural)]
pub enum WriteError {
    /// The peer is no longer accepting data on this stream.
    Stopped(VarInt),
    /// The connection was lost.
    ConnectionClosed(ConnectionError),
    /// The stream has already been finished or reset.
    UnknownStream,
}

/// What the engine answers to a write.
#[derive(Clone, Copy, Debug, PartialEq, Eq, Structural)]
pub enum EngineWrite {
    /// It took this many bytes from the front of what was offered
    Written(usize),
    /// The flow-control window is exhausted
    Blocked,
    /// The peer stopped the stream with this code
    Stopped(VarInt),
    /// The engine does not know the stream
    UnknownStream,
}

/// How far the sending half has come.
#[derive(Clone, Copy, Debug, PartialEq, Eq, Structural)]
pub enum SendPhase {
    /// Writes are permitted
    Open,
    /// `finish` was called: no further writes are permitted
    Finished,
    /// `reset` was called: what was not sent is discarded
    Reset,
}

/// What a sending half holds, as plain values.
pub struct SendState {
    /// The stream
    pub id: StreamId,
    /// How far the half has come
    pub phase: SendPhase,
    /// How many bytes the engine took in all
    pub written: nat,
}

impl SendState {
    /// Why the engine is not to be asked for a write, if it is not: the
    /// connection has ended, or the half was finished or reset.
    pub open spec fn refusal(self, lost: Option<ConnectionError>) -> Option<WriteError> {
        match lost {
            Some(reason) => Some(WriteError::ConnectionClosed(reason)),
            None => if self.phase == SendPhase::Open {
                None
            } else {
                Some(WriteError::UnknownStream)
            },
        }
    }

    /// How many of `offered` bytes a write reports as taken when the engine
    /// says `taken`: never more than were offered.
    pub open spec fn accepted(offered: nat, taken: usize) -> nat {
        if taken as nat > offered {
            offered
        } else {
            taken as nat
        }
    }

    /// What a write of `offered` bytes returns for an answer of the engine.
    pub open spec fn write_outcome(
        self,
        lost: Option<ConnectionError>,
        offered: nat,
        answer: EngineWrite,
    ) -> Poll<Result<usize, WriteError>> {
        match self.refusal(lost) {
            Some(error) => Poll::Ready(Err(error)),
            None => match answer {
                EngineWrite::Written(taken) => Poll::Ready(
                    Ok(Self::accepted(offered, taken) as usize),
                ),
                EngineWrite::Blocked => Poll::Pending,
                EngineWrite::Stopped(code) => Poll::Ready(Err(WriteError::Stopped(code))),
                EngineWrite::UnknownStream => Poll::Ready(Err(WriteError::UnknownStream)),
            },
        }
    }
}

/// The sending half of a stream.
pub struct SendStream {
    id: StreamId,
    phase: SendPhase,
    written: u64,
}

impl View for SendStream {
    type V = SendState;

    closed spec fn view(&self) -> SendState {
        SendState { id: self.id, phase: self.phase, written: self.written as nat }
    }
}

impl SendStream {
    /// The sending half of stream `id`, open, with nothing written.
    pub fn new(id: StreamId) -> (s: Self)
        ensures
            s@ == (SendState { id, phase: SendPhase::Open, written: 0 }),
    {
        SendStream { id, phase: SendPhase::Open, written: 0 }
    }

    /// The stream this half belongs to.
    pub fn id(&self) -> (id: StreamId)
        ensures
            id == self@.id,
    {
        self.id
    }

    /// How far the half has come.
    pub fn phase(&self) -> (phase: SendPhase)
        ensures
            phase == self@.phase,
    {
        self.phase
    }

    /// How many bytes the engine took in all; the count stops at the largest
    /// number it can hold.
    pub fn written(&self) -> (n: u64)
        ensures
            n == self@.written,
    {
        self.written
    }

    /// Whether the engine may be asked for a write, and the error that the
    /// write returns if not.
    pub fn check(&self, conn: &ConnectionDriver) -> (r: Result<(), WriteError>)
        ensures
            match self@.refusal(conn@.signals.error()) {
                Some(error) => r == Err::<(), WriteError>(error),
                None => r is Ok,
            },
    {
        match conn.error() {
            Some(reason) => Err(WriteError::ConnectionClosed(reason)),
            None => {
                if self.phase == SendPhase::Open {
                    Ok(())
                } else {
                    Err(WriteError::UnknownStream)
                }
            },
        }
    }

    /// Complete a write of `offered` bytes with what the engine answered. On
    /// a connection that has ended, and on a half that was finished or reset,
    /// the write fails whatever the engine said. Otherwise: bytes taken are
    /// reported, no more than were offered; an exhausted window registers
    /// `task` to be woken when the stream becomes writable and leaves the
    /// write pending; a stop by the peer and an unknown stream fail the
    /// write.
    pub fn on_write(
        &mut self,
        conn: &mut ConnectionDriver,
        task: u64,
        offered: usize,
        answer: EngineWrite,
    ) -> (r: Poll<Result<usize, WriteError>>)
        ensures
            r == old(self)@.write_outcome(old(conn)@.signals.error(), offered as nat, answer),
            final(self)@ == (SendState {
                written: match r {
                    Poll::Ready(Ok(n)) => if old(self)@.written + n > u64::MAX {
                        u64::MAX as nat
                    } else {
                        (old(self)@.written + n) as nat
                    },
                    _ => old(self)@.written,
                },
                ..old(self)@
            }),
            r is Pending ==> final(conn)@ == old(conn)@.with_signals(
                old(conn)@.signals.with_writer(old(self)@.id, task),
            ),
            !(r is Pending) ==> final(conn)@ == old(conn)@,
    {
        match self.check(conn) {
            Err(error) => Poll::Ready(Err(error)),
            Ok(()) => match answer {
                EngineWrite::Written(taken) => {
                    let n: usize = if taken > offered {
                        offered
                    } else {
                        taken
                    };
                    if n as u64 > u64::MAX - self.written {
                        self.written = u64::MAX;
                    } else {
                        self.written = self.written + n as u64;
                    }
                    Poll::Ready(Ok(n))
                },
                EngineWrite::Blocked => {
                    let _ = conn.register_writer(self.id, task);
                    Poll::Pending
                },
                EngineWrite::Stopped(code) => Poll::Ready(Err(WriteError::Stopped(code))),
                EngineWrite::UnknownStream => Poll::Ready(Err(WriteError::UnknownStream)),
            },
        }
    }

    /// Signal the graceful end of the stream. On an open half of a live
    /// connection the half is finished, so that no further write is
    /// permitted, and the request goes to the engine. Otherwise nothing
    /// changes and the error comes back.
    pub fn finish(&mut self, conn: &ConnectionDriver) -> (r: Result<(), WriteError>)
        ensures
            match old(self)@.refusal(conn@.signals.error()) {
                Some(error) => r == Err::<(), WriteError>(error) && final(self)@ == old(self)@,
                None => r is Ok && final(self)@ == (SendState {
                    phase: SendPhase::Finished,
                    ..old(self)@
                }),
            },
    {
        match self.check(conn) {
            Err(error) => Err(error),
            Ok(()) => {
                self.phase = SendPhase::Finished;
                Ok(())
            },
        }
    }

    /// Abandon the stream with a reason code: what was not sent is discarded.
    /// On a half that is open or finished, of a live connection, the half is
    /// reset and the code comes back, to be handed to the engine. Otherwise
    /// the error comes back. Either way a writer suspended on the stream is
    /// forgotten.
    pub fn reset(&mut self, conn: &mut ConnectionDriver, error_code: VarInt) -> (r: Result<
        VarInt,
        WriteError,
    >)
        ensures
            match old(conn)@.signals.error() {
                Some(reason) => r == Err::<VarInt, WriteError>(
                    WriteError::ConnectionClosed(reason),
                ) && final(self)@ == old(self)@,
                None => if old(self)@.phase == SendPhase::Reset {
                    r == Err::<VarInt, WriteError>(WriteError::UnknownStream) && final(self)@
                        == old(self)@
                } else {
                    r == Ok::<VarInt, WriteError>(error_code) && final(self)@ == (SendState {
                        phase: SendPhase::Reset,
                        ..old(self)@
                    })
                },
            },
            final(conn)@ == old(conn)@.with_signals(
                (DriverState {
                    writers: erase(old(conn)@.signals.writers, old(self)@.id.0),
                    ..old(conn)@.signals
                }),
            ),
    {
        let lost = conn.error();
        conn.cancel_writer(self.id);
        match lost {
            Some(reason) => Err(WriteError::ConnectionClosed(reason)),
            None => {
                if self.phase == SendPhase::Reset {
                    Err(WriteError::UnknownStream)
                } else {
                    self.phase = SendPhase::Reset;
                    Ok(error_code)
                }
            },
        }
    }
}

} // verus!
