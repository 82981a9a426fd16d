//! The receiving half of a stream: what a read returns for each answer of the
//! engine, and the two reads composed of others.
//!
//! A read first takes in what the engine answered, then serves from what the
//! stream holds: bytes before an error, an error before the end. Nothing the
//! engine handed over is dropped or reordered.

use crate::buf::{bytes_len, bytes_seq, bytes_slice, bytes_to_vec};
use crate::connection::{ConnectionDriver, ConnectionError};
use crate::stream_id::StreamId;
use crate::transport::Poll;
use crate::varint::VarInt;
use bytes::Bytes;
use std::collections::VecDeque;
use vstd::prelude::*;

verus! {

/// Errors that arise from reading from a stream.
#[derive(Clone, Copy, Debug, PartialEq, Eq, Structural)]
pub enum ReadError {
    /// The peer abandoned transmitting data on this stream.
    Reset(VarInt),
    /// The connection was lost.
    ConnectionClosed(ConnectionError),
    /// The stream has already been stopped, finished, or reset.
    UnknownStream,
}

/// Errors that arise from reading an exact number of bytes.
#[derive(Clone, Copy, Debug, PartialEq, Eq, Structural)]
pub enum ReadExactError {
    /// The stream finished before all bytes were read
    FinishedEarly,
    /// A read error occurred
    ReadError(ReadError),
}

/// Errors that arise from reading a stream to its end.
#[derive(Clone, Copy, Debug, PartialEq, Eq, Structural)]
pub enum ReadToEndError {
    /// A read error occurred
    Read(ReadError),
    /// The stream is larger than the caller allowed
    TooLong,
}

/// What the engine answers to a read.
#[derive(Debug)]
pub enum EngineRead {
    /// The next bytes of the stream
    Chunk(Bytes),
    /// The stream has ended
    Finished,
    /// Nothing has arrived yet
    Blocked,
    /// The peer reset the stream with this code
    Reset(VarInt),
    /// The engine does not know the stream
    UnknownStream,
}

/// How far a composed read has come.
#[derive(Clone, Copy, Debug, PartialEq, Eq, Structural)]
pub enum Progress<T> {
    /// It is over, with this result
    Done(T),
    /// Ask the engine again and come back with its answer
    More,
    /// Suspend until the stream is readable
    Suspend,
}

/// What a receiving half holds, as plain values.
pub struct RecvState {
    /// The stream
    pub id: StreamId,
    /// The chunks taken in and not yet served, oldest first; none is empty
    pub pending: Seq<Seq<u8>>,
    /// Whether the engine reported the end of the stream
    pub fin: bool,
    /// The first error the engine reported
    pub failed: Option<ReadError>,
}

/// The bytes of the chunks of a queue.
pub open spec fn chunks_view(queue: Seq<Bytes>) -> Seq<Seq<u8>> {
    Seq::new(queue.len(), |i: int| bytes_seq(queue[i]))
}

/// The smaller of two lengths.
pub open spec fn spec_min(a: nat, b: nat) -> nat {
    if a < b {
        a
    } else {
        b
    }
}

impl RecvState {
    /// What holds of every receiving half: no pending chunk is empty.
    pub open spec fn wf(self) -> bool {
        forall|i: int| 0 <= i < self.pending.len() ==> (#[trigger] self.pending[i]).len() > 0
    }

    /// The state after taking in an answer of the engine: a chunk joins the
    /// pending ones unless it is empty, the end is noted, and the first error
    /// is kept.
    pub open spec fn absorb(self, answer: EngineRead) -> Self {
        match answer {
            EngineRead::Chunk(bytes) => if bytes_seq(bytes).len() > 0 {
                RecvState { pending: self.pending.push(bytes_seq(bytes)), ..self }
            } else {
                self
            },
            EngineRead::Finished => RecvState { fin: true, ..self },
            EngineRead::Blocked => self,
            EngineRead::Reset(code) => if self.failed is None {
                RecvState { failed: Some(ReadError::Reset(code)), ..self }
            } else {
                self
            },
            EngineRead::UnknownStream => if self.failed is None {
                RecvState { failed: Some(ReadError::UnknownStream), ..self }
            } else {
                self
            },
        }
    }

    /// The bytes that a read of at most `max` bytes is served: the start of
    /// the oldest pending chunk.
    pub open spec fn served(self, max: nat) -> Seq<u8> {
        if self.pending.len() == 0 {
            Seq::empty()
        } else {
            self.pending[0].take(spec_min(max, self.pending[0].len()) as int)
        }
    }

    /// The state after a read of at most `max` bytes was served: what is left
    /// of the oldest chunk stays first.
    pub open spec fn after_serve(self, max: nat) -> Self {
        if self.pending.len() == 0 {
            self
        } else if max >= self.pending[0].len() {
            RecvState { pending: self.pending.skip(1), ..self }
        } else {
            RecvState {
                pending: self.pending.update(0, self.pending[0].skip(max as int)),
                ..self
            }
        }
    }

    /// Whether a read has to ask the engine: nothing is pending and neither
    /// the end nor an error is known.
    pub open spec fn needs_engine(self) -> bool {
        self.pending.len() == 0 && !self.fin && self.failed is None
    }

    /// What a read of at most `max` bytes returns, on a connection that ended
    /// for `lost` if it did: the connection's end first, then pending bytes,
    /// then the stream's error, then its end; with none of these the read is
    /// pending.
    pub open spec fn outcome(self, lost: Option<ConnectionError>, max: nat) -> Poll<
        Result<Option<usize>, ReadError>,
    > {
        match lost {
            Some(reason) => Poll::Ready(Err(ReadError::ConnectionClosed(reason))),
            None => if self.pending.len() > 0 {
                Poll::Ready(Ok(Some(self.served(max).len() as usize)))
            } else if self.failed is Some {
                Poll::Ready(Err(self.failed->Some_0))
            } else if self.fin {
                Poll::Ready(Ok(None))
            } else {
                Poll::Pending
            },
        }
    }
}

/// The receiving half of a stream.
pub struct RecvStream {
    id: StreamId,
    pending: VecDeque<Bytes>,
    fin: bool,
    failed: Option<ReadError>,
}

impl View for RecvStream {
    type V = RecvState;

    closed spec fn view(&self) -> RecvState {
        RecvState {
            id: self.id,
            pending: chunks_view(self.pending@),
            fin: self.fin,
            failed: self.failed,
        }
    }
}

impl RecvStream {
    #[verifier::type_invariant]
    spec fn inv(self) -> bool {
        self@.wf()
    }

    /// The receiving half of stream `id`, with nothing received.
    pub fn new(id: StreamId) -> (s: Self)
        ensures
            s@ == (RecvState { id, pending: Seq::empty(), fin: false, failed: None }),
            s@.wf(),
    {
        let s = RecvStream { id, pending: VecDeque::new(), fin: false, failed: None };
        assert(chunks_view(s.pending@) =~= Seq::empty());
        s
    }

    /// The stream this half belongs to.
    pub fn id(&self) -> (id: StreamId)
        ensures
            id == self@.id,
    {
        self.id
    }

    /// Whether a read has to ask the engine before it can return.
    pub fn needs_engine(&self) -> (needed: bool)
        ensures
            needed == self@.needs_engine(),
    {
        self.pending.len() == 0 && !self.fin && self.failed.is_none()
    }

    /// Take in an answer of the engine.
    fn absorb(&mut self, answer: EngineRead)
        ensures
            final(self)@ == old(self)@.absorb(answer),
            final(self)@.wf(),
    {
        proof {
            use_type_invariant(&*self);
        }
        let ghost before = self@;
        match answer {
            EngineRead::Chunk(bytes) => {
                if bytes_len(&bytes) > 0 {
                    let mut pending: VecDeque<Bytes> = VecDeque::new();
                    std::mem::swap(&mut pending, &mut self.pending);
                    proof {
                        assert(chunks_view(self.pending@) =~= Seq::empty());
                    }
                    pending.push_back(bytes);
                    assert(chunks_view(pending@) =~= before.pending.push(bytes_seq(bytes)));
                    self.pending = pending;
                }
            },
            EngineRead::Finished => {
                self.fin = true;
            },
            EngineRead::Blocked => {},
            EngineRead::Reset(code) => {
                if self.failed.is_none() {
                    self.failed = Some(ReadError::Reset(code));
                }
            },
            EngineRead::UnknownStream => {
                if self.failed.is_none() {
                    self.failed = Some(ReadError::UnknownStream);
                }
            },
        }
    }

    /// Move at most `max` bytes from the start of the oldest pending chunk to
    /// the end of `buf`.
    fn serve(&mut self, buf: &mut Vec<u8>, max: usize) -> (n: usize)
        ensures
            n == old(self)@.served(max as nat).len(),
            final(buf)@ == old(buf)@ + old(self)@.served(max as nat),
            final(self)@ == old(self)@.after_serve(max as nat),
            final(self)@.wf(),
    {
        proof {
            use_type_invariant(&*self);
        }
        let ghost before = self@;
        let mut pending: VecDeque<Bytes> = VecDeque::new();
        std::mem::swap(&mut pending, &mut self.pending);
        proof {
            assert(chunks_view(self.pending@) =~= Seq::empty());
        }
        let ghost queue = pending@;
        let n: usize = match pending.pop_front() {
            Some(first) => {
                assert(bytes_seq(first) == before.pending[0]);
                let len: usize = bytes_len(&first);
                if max >= len {
                    let mut bytes = bytes_to_vec(&first);
                    buf.append(&mut bytes);
                    assert(before.pending[0].take(len as int) =~= before.pending[0]);
                    assert(chunks_view(pending@) =~= before.pending.skip(1));
                    len
                } else {
                    let head = bytes_slice(&first, 0, max);
                    let rest = bytes_slice(&first, max, len);
                    let mut bytes = bytes_to_vec(&head);
                    buf.append(&mut bytes);
                    pending.push_front(rest);
                    assert(before.pending[0].subrange(0, max as int) =~= before.pending[0].take(
                        max as int,
                    ));
                    assert(before.pending[0].subrange(max as int, len as int)
                        =~= before.pending[0].skip(max as int));
                    assert(chunks_view(pending@) =~= before.pending.update(
                        0,
                        before.pending[0].skip(max as int),
                    ));
                    max
                }
            },
            None => {
                assert(buf@ =~= old(buf)@ + Seq::<u8>::empty());
                assert(chunks_view(pending@) =~= before.pending);
                0
            },
        };
        assert(forall|i: int|
            0 <= i < chunks_view(pending@).len() ==> (#[trigger] chunks_view(pending@)[i]).len() > 0) by {
            assert forall|i: int| 0 <= i < chunks_view(pending@).len() implies (#[trigger] chunks_view(
                pending@,
            )[i]).len() > 0 by {
                if before.pending.len() > 0 {
                    if max >= before.pending[0].len() {
                        assert(chunks_view(pending@)[i] == before.pending[i + 1]);
                    } else if i > 0 {
                        assert(chunks_view(pending@)[i] == before.pending[i]);
                    }
                } else {
                    assert(chunks_view(pending@)[i] == before.pending[i]);
                }
            }
        }
        self.pending = pending;
        n
    }

    /// Read at most `max` bytes to the end of `buf`, given what the engine
    /// answered. The answer is taken in first. Then, in this order: on a
    /// connection that has ended the read fails with the reason; pending bytes
    /// are served, up to `max` of the oldest chunk, and their number is
    /// returned; an error the engine reported is returned; the end of the
    /// stream is returned as `None`; otherwise `task` is registered to be
    /// woken when the stream becomes readable and the read is pending.
    pub fn on_read(
        &mut self,
        conn: &mut ConnectionDriver,
        task: u64,
        buf: &mut Vec<u8>,
        max: usize,
        answer: EngineRead,
    ) -> (r: Poll<Result<Option<usize>, ReadError>>)
        ensures
            r == old(self)@.absorb(answer).outcome(old(conn)@.signals.error(), max as nat),
            r matches Poll::Ready(Ok(Some(_))) ==> {
                &&& final(self)@ == old(self)@.absorb(answer).after_serve(max as nat)
                &&& final(buf)@ == old(buf)@ + old(self)@.absorb(answer).served(max as nat)
            },
            !(r matches Poll::Ready(Ok(Some(_)))) ==> {
                &&& final(self)@ == old(self)@.absorb(answer)
                &&& final(buf)@ == old(buf)@
            },
            r is Pending ==> final(conn)@ == old(conn)@.with_signals(
                old(conn)@.signals.with_reader(old(self)@.id, task),
            ),
            !(r is Pending) ==> final(conn)@ == old(conn)@,
            final(self)@.wf(),
    {
        self.absorb(answer);
        match conn.error() {
            Some(reason) => Poll::Ready(Err(ReadError::ConnectionClosed(reason))),
            None => {
                if self.pending.len() > 0 {
                    let n = self.serve(buf, max);
                    Poll::Ready(Ok(Some(n)))
                } else {
                    match self.failed {
                        Some(error) => Poll::Ready(Err(error)),
                        None => {
                            if self.fin {
                                Poll::Ready(Ok(None))
                            } else {
                                let _ = conn.register_reader(self.id, task);
                                Poll::Pending
                            }
                        },
                    }
                }
            },
        }
    }

    /// Take at most `max` bytes off the start of the oldest pending chunk,
    /// as a buffer that shares the chunk's memory.
    fn serve_chunk(&mut self, max: usize) -> (r: Option<Bytes>)
        requires
            old(self)@.pending.len() > 0,
        ensures
            r matches Some(bytes) && bytes_seq(bytes) == old(self)@.served(max as nat),
            final(self)@ == old(self)@.after_serve(max as nat),
            final(self)@.wf(),
    {
        proof {
            use_type_invariant(&*self);
        }
        let ghost before = self@;
        let mut pending: VecDeque<Bytes> = VecDeque::new();
        std::mem::swap(&mut pending, &mut self.pending);
        proof {
            assert(chunks_view(self.pending@) =~= Seq::empty());
            assert(chunks_view(pending@).len() > 0);
        }
        let r = match pending.pop_front() {
            Some(first) => {
                assert(bytes_seq(first) == before.pending[0]);
                let len: usize = bytes_len(&first);
                if max >= len {
                    assert(before.pending[0].take(len as int) =~= before.pending[0]);
                    assert(chunks_view(pending@) =~= before.pending.skip(1));
                    Some(first)
                } else {
                    let head = bytes_slice(&first, 0, max);
                    let rest = bytes_slice(&first, max, len);
                    pending.push_front(rest);
                    assert(before.pending[0].subrange(0, max as int) =~= before.pending[0].take(
                        max as int,
                    ));
                    assert(before.pending[0].subrange(max as int, len as int)
                        =~= before.pending[0].skip(max as int));
                    assert(chunks_view(pending@) =~= before.pending.update(
                        0,
                        before.pending[0].skip(max as int),
                    ));
                    Some(head)
                }
            },
            None => None,
        };
        assert forall|i: int| 0 <= i < chunks_view(pending@).len() implies (#[trigger] chunks_view(
            pending@,
        )[i]).len() > 0 by {
            if max >= before.pending[0].len() {
                assert(chunks_view(pending@)[i] == before.pending[i + 1]);
            } else if i > 0 {
                assert(chunks_view(pending@)[i] == before.pending[i]);
            }
        }
        self.pending = pending;
        r
    }

    /// Read at most `max` bytes as a fragment of what the engine handed over,
    /// without copying, given what the engine answered. The answers and their
    /// order are those of `on_read`; where `on_read` would copy bytes to its
    /// buffer, those bytes are returned as a buffer of their own.
    pub fn on_read_chunk(
        &mut self,
        conn: &mut ConnectionDriver,
        task: u64,
        max: usize,
        answer: EngineRead,
    ) -> (r: Poll<Result<Option<Bytes>, ReadError>>)
        ensures
            match old(self)@.absorb(answer).outcome(old(conn)@.signals.error(), max as nat) {
                Poll::Ready(Ok(Some(_))) => {
                    &&& r matches Poll::Ready(Ok(Some(bytes)))
                    &&& bytes_seq(bytes) == old(self)@.absorb(answer).served(max as nat)
                    &&& final(self)@ == old(self)@.absorb(answer).after_serve(max as nat)
                },
                Poll::Ready(Ok(None)) => {
                    &&& r matches Poll::Ready(Ok(None))
                    &&& final(self)@ == old(self)@.absorb(answer)
                },
                Poll::Ready(Err(error)) => {
                    &&& r matches Poll::Ready(Err(e))
                    &&& e == error
                    &&& final(self)@ == old(self)@.absorb(answer)
                },
                Poll::Pending => {
                    &&& r is Pending
                    &&& final(self)@ == old(self)@.absorb(answer)
                },
            },
            r is Pending ==> final(conn)@ == old(conn)@.with_signals(
                old(conn)@.signals.with_reader(old(self)@.id, task),
            ),
            !(r is Pending) ==> final(conn)@ == old(conn)@,
            final(self)@.wf(),
    {
        self.absorb(answer);
        match conn.error() {
            Some(reason) => Poll::Ready(Err(ReadError::ConnectionClosed(reason))),
            None => {
                if self.pending.len() > 0 {
                    Poll::Ready(Ok(self.serve_chunk(max)))
                } else {
                    match self.failed {
                        Some(error) => Poll::Ready(Err(error)),
                        None => {
                            if self.fin {
                                Poll::Ready(Ok(None))
                            } else {
                                let _ = conn.register_reader(self.id, task);
                                Poll::Pending
                            }
                        },
                    }
                }
            },
        }
    }

    /// Tell the peer to cease sending, with a reason code. Returns the code
    /// to hand to the engine, or `None` where the request does not go to the
    /// engine: where the stream's end or an error is known already or the
    /// connection has ended. What is pending is discarded, a reader suspended
    /// on the stream is forgotten, and later reads find the stream unknown.
    pub fn stop(&mut self, conn: &mut ConnectionDriver, error_code: VarInt) -> (forward: Option<
        VarInt,
    >)
        ensures
            forward == if !old(self)@.fin && old(self)@.failed is None && old(
                conn,
            )@.signals.error() is None {
                Some(error_code)
            } else {
                None
            },
            final(self)@ == (RecvState {
                pending: Seq::empty(),
                failed: if old(self)@.failed is None {
                    Some(ReadError::UnknownStream)
                } else {
                    old(self)@.failed
                },
                ..old(self)@
            }),
            final(conn)@ == old(conn)@.with_signals(
                (crate::connection::DriverState {
                    readers: crate::table::erase(old(conn)@.signals.readers, old(self)@.id.0),
                    ..old(conn)@.signals
                }),
            ),
            final(self)@.wf(),
    {
        proof {
            use_type_invariant(&*self);
        }
        let forward: bool = !self.fin && self.failed.is_none() && conn.error().is_none();
        conn.cancel_reader(self.id);
        let mut pending: VecDeque<Bytes> = VecDeque::new();
        std::mem::swap(&mut pending, &mut self.pending);
        assert(chunks_view(self.pending@) =~= Seq::empty());
        if self.failed.is_none() {
            self.failed = Some(ReadError::UnknownStream);
        }
        if forward {
            Some(error_code)
        } else {
            None
        }
    }
}

/// All the bytes of some chunks, in order.
pub open spec fn concat(chunks: Seq<Seq<u8>>) -> Seq<u8>
    decreases chunks.len(),
{
    if chunks.len() == 0 {
        Seq::empty()
    } else {
        concat(chunks.drop_last()) + chunks.last()
    }
}

/// What reading a stream of `chunks` to its end gives under a limit of
/// `limit` bytes: all the bytes, or nothing once a chunk would take the total
/// over the limit.
pub open spec fn spec_read_to_end(chunks: Seq<Seq<u8>>, limit: nat) -> Option<Seq<u8>>
    decreases chunks.len(),
{
    if chunks.len() == 0 {
        Some(Seq::empty())
    } else {
        match spec_read_to_end(chunks.drop_last(), limit) {
            Some(sofar) => if sofar.len() + chunks.last().len() > limit {
                None
            } else {
                Some(sofar + chunks.last())
            },
            None => None,
        }
    }
}

/// The limit of a read to the end is exact: a stream is read to its end if and
/// only if it holds no more bytes than the limit, and then the read returns
/// all of its bytes in order. A stream of exactly `limit` bytes is read, one
/// of `limit + 1` bytes is not.
pub proof fn law_read_to_end_limit(chunks: Seq<Seq<u8>>, limit: nat)
    ensures
        spec_read_to_end(chunks, limit) is Some <==> concat(chunks).len() <= limit,
        spec_read_to_end(chunks, limit) is Some ==> spec_read_to_end(chunks, limit)
            == Some(concat(chunks)),
    decreases chunks.len(),
{
    if chunks.len() > 0 {
        law_read_to_end_limit(chunks.drop_last(), limit);
    }
}

/// A read of an exact number of bytes, composed of reads.
pub struct ReadExact {
    want: usize,
    got: Vec<u8>,
}

/// A read to the end of a stream under a limit, composed of reads.
pub struct ReadToEnd {
    limit: usize,
    got: Vec<u8>,
}

impl ReadExact {
    #[verifier::type_invariant]
    spec fn inv(self) -> bool {
        self.got@.len() <= self.want
    }

    /// How many bytes are wanted in all.
    pub closed spec fn spec_want(&self) -> nat {
        self.want as nat
    }

    /// The bytes read so far.
    pub closed spec fn spec_got(&self) -> Seq<u8> {
        self.got@
    }

    /// A read of exactly `want` bytes that has read nothing yet.
    pub fn new(want: usize) -> (r: Self)
        ensures
            r.spec_want() == want,
            r.spec_got() == Seq::<u8>::empty(),
    {
        ReadExact { want, got: Vec::new() }
    }

    /// How many bytes are still missing.
    pub fn remaining(&self) -> (n: usize)
        ensures
            n == self.spec_want() - self.spec_got().len(),
            self.spec_got().len() <= self.spec_want(),
    {
        proof {
            use_type_invariant(self);
        }
        self.want - self.got.len()
    }

    /// Go on with what the engine answered. The read asks the stream for the
    /// bytes still missing and is done when none is missing. It fails with
    /// `FinishedEarly` when the stream ends first, and with the read's error
    /// when the read fails. Otherwise it says whether to ask the engine again
    /// or to suspend.
    pub fn on_read(
        &mut self,
        stream: &mut RecvStream,
        conn: &mut ConnectionDriver,
        task: u64,
        answer: EngineRead,
    ) -> (r: Progress<Result<(), ReadExactError>>)
        ensures
            final(self).spec_want() == old(self).spec_want(),
            old(self).spec_got().len() == old(self).spec_want() ==> {
                &&& r == Progress::Done(Ok::<(), ReadExactError>(()))
                &&& final(self).spec_got() == old(self).spec_got()
                &&& final(stream)@ == old(stream)@
                &&& final(conn)@ == old(conn)@
            },
            old(self).spec_got().len() < old(self).spec_want() ==> ({
                let missing = (old(self).spec_want() - old(self).spec_got().len()) as nat;
                let taken = old(stream)@.absorb(answer);
                let read = taken.outcome(old(conn)@.signals.error(), missing);
                &&& r == match read {
                    Poll::Ready(Ok(Some(n))) => if n == missing {
                        Progress::Done(Ok(()))
                    } else {
                        Progress::More
                    },
                    Poll::Ready(Ok(None)) => Progress::Done(Err(ReadExactError::FinishedEarly)),
                    Poll::Ready(Err(error)) => Progress::Done(
                        Err(ReadExactError::ReadError(error)),
                    ),
                    Poll::Pending => Progress::Suspend,
                }
                &&& read matches Poll::Ready(Ok(Some(_))) ==> {
                    &&& final(self).spec_got() == old(self).spec_got() + taken.served(missing)
                    &&& final(stream)@ == taken.after_serve(missing)
                }
                &&& !(read matches Poll::Ready(Ok(Some(_)))) ==> {
                    &&& final(self).spec_got() == old(self).spec_got()
                    &&& final(stream)@ == taken
                }
                &&& read is Pending ==> final(conn)@ == old(conn)@.with_signals(
                    old(conn)@.signals.with_reader(old(stream)@.id, task),
                )
                &&& !(read is Pending) ==> final(conn)@ == old(conn)@
            }),
    {
        proof {
            use_type_invariant(&*self);
        }
        let missing: usize = self.want - self.got.len();
        if missing == 0 {
            return Progress::Done(Ok(()));
        }
        let mut got: Vec<u8> = Vec::new();
        std::mem::swap(&mut got, &mut self.got);
        let read = stream.on_read(conn, task, &mut got, missing, answer);
        self.got = got;
        match read {
            Poll::Ready(Ok(Some(n))) => {
                if n == missing {
                    Progress::Done(Ok(()))
                } else {
                    Progress::More
                }
            },
            Poll::Ready(Ok(None)) => Progress::Done(Err(ReadExactError::FinishedEarly)),
            Poll::Ready(Err(error)) => Progress::Done(Err(ReadExactError::ReadError(error))),
            Poll::Pending => Progress::Suspend,
        }
    }

    /// The bytes read.
    pub fn into_bytes(self) -> (bytes: Vec<u8>)
        ensures
            bytes@ == self.spec_got(),
    {
        self.got
    }
}

impl ReadToEnd {
    #[verifier::type_invariant]
    spec fn inv(self) -> bool {
        self.got@.len() <= self.limit
    }

    /// The most bytes the read accepts.
    pub closed spec fn spec_limit(&self) -> nat {
        self.limit as nat
    }

    /// The bytes read so far.
    pub closed spec fn spec_got(&self) -> Seq<u8> {
        self.got@
    }

    /// A read to the end that accepts at most `limit` bytes and has read
    /// nothing yet.
    pub fn new(limit: usize) -> (r: Self)
        ensures
            r.spec_limit() == limit,
            r.spec_got() == Seq::<u8>::empty(),
    {
        ReadToEnd { limit, got: Vec::new() }
    }

    /// How many bytes the read holds; never more than its limit.
    pub fn len(&self) -> (n: usize)
        ensures
            n == self.spec_got().len(),
            n <= self.spec_limit(),
    {
        proof {
            use_type_invariant(self);
        }
        self.got.len()
    }

    /// Take in the next chunk of the stream: it is appended if the total stays
    /// within the limit, and refused with `TooLong`, nothing being stored,
    /// if not.
    pub fn push_chunk(&mut self, chunk: &Bytes) -> (r: Result<(), ReadToEndError>)
        ensures
            final(self).spec_limit() == old(self).spec_limit(),
            old(self).spec_got().len() + bytes_seq(*chunk).len() <= old(self).spec_limit() ==> r
                is Ok && final(self).spec_got() == old(self).spec_got() + bytes_seq(*chunk),
            old(self).spec_got().len() + bytes_seq(*chunk).len() > old(self).spec_limit() ==> r
                == Err::<(), ReadToEndError>(ReadToEndError::TooLong) && final(self).spec_got()
                == old(self).spec_got(),
    {
        proof {
            use_type_invariant(&*self);
        }
        let len: usize = bytes_len(chunk);
        if len > self.limit - self.got.len() {
            return Err(ReadToEndError::TooLong);
        }
        let mut bytes = bytes_to_vec(chunk);
        let mut got: Vec<u8> = Vec::new();
        std::mem::swap(&mut got, &mut self.got);
        got.append(&mut bytes);
        self.got = got;
        Ok(())
    }

    /// Go on with what the engine answered to a read of whole chunks. A chunk
    /// is taken in with `push_chunk` and the engine is to be asked again; the
    /// end of the stream completes the read; an error of the stream or the end
    /// of the connection fails it; and while nothing has arrived the read
    /// suspends, with `task` registered to be woken.
    pub fn on_read(
        &mut self,
        id: StreamId,
        conn: &mut ConnectionDriver,
        task: u64,
        answer: EngineRead,
    ) -> (r: Progress<Result<(), ReadToEndError>>)
        ensures
            final(self).spec_limit() == old(self).spec_limit(),
            r == match old(conn)@.signals.error() {
                Some(reason) => Progress::Done(
                    Err(ReadToEndError::Read(ReadError::ConnectionClosed(reason))),
                ),
                None => match answer {
                    EngineRead::Chunk(bytes) => if old(self).spec_got().len() + bytes_seq(
                        bytes,
                    ).len() <= old(self).spec_limit() {
                        Progress::More
                    } else {
                        Progress::Done(Err(ReadToEndError::TooLong))
                    },
                    EngineRead::Finished => Progress::Done(Ok(())),
                    EngineRead::Blocked => Progress::Suspend,
                    EngineRead::Reset(code) => Progress::Done(
                        Err(ReadToEndError::Read(ReadError::Reset(code))),
                    ),
                    EngineRead::UnknownStream => Progress::Done(
                        Err(ReadToEndError::Read(ReadError::UnknownStream)),
                    ),
                },
            },
            final(self).spec_got() == if r == Progress::<Result<(), ReadToEndError>>::More {
                old(self).spec_got() + bytes_seq(answer->Chunk_0)
            } else {
                old(self).spec_got()
            },
            r == Progress::<Result<(), ReadToEndError>>::Suspend ==> final(conn)@ == old(
                conn,
            )@.with_signals(old(conn)@.signals.with_reader(id, task)),
            r != Progress::<Result<(), ReadToEndError>>::Suspend ==> final(conn)@ == old(conn)@,
    {
        match conn.error() {
            Some(reason) => Progress::Done(
                Err(ReadToEndError::Read(ReadError::ConnectionClosed(reason))),
            ),
            None => match answer {
                EngineRead::Chunk(bytes) => {
                    match self.push_chunk(&bytes) {
                        Ok(()) => Progress::More,
                        Err(error) => Progress::Done(Err(error)),
                    }
                },
                EngineRead::Finished => Progress::Done(Ok(())),
                EngineRead::Blocked => {
                    let _ = conn.register_reader(id, task);
                    Progress::Suspend
                },
                EngineRead::Reset(code) => Progress::Done(
                    Err(ReadToEndError::Read(ReadError::Reset(code))),
                ),
                EngineRead::UnknownStream => Progress::Done(
                    Err(ReadToEndError::Read(ReadError::UnknownStream)),
                ),
            },
        }
    }

    /// The bytes read.
    pub fn into_bytes(self) -> (bytes: Vec<u8>)
        ensures
            bytes@ == self.spec_got(),
    {
        self.got
    }
}

/// Read a stream whose chunks are all at hand to its end, under a limit.
/// Returns all the bytes in order if they are no more than `limit`, and
/// `TooLong` otherwise, having held no more than `limit` bytes.
pub fn read_to_end(chunks: &Vec<Bytes>, limit: usize) -> (r: Result<Vec<u8>, ReadToEndError>)
    ensures
        match spec_read_to_end(chunks_view(chunks@), limit as nat) {
            Some(bytes) => r is Ok && r->Ok_0@ == bytes,
            None => r == Err::<Vec<u8>, ReadToEndError>(ReadToEndError::TooLong),
        },
{
    let mut read = ReadToEnd::new(limit);
    let mut i: usize = 0;
    while i < chunks.len()
        invariant
            i <= chunks.len(),
            read.spec_limit() == limit,
            spec_read_to_end(chunks_view(chunks@).take(i as int), limit as nat) == Some(
                read.spec_got(),
            ),
        decreases chunks.len() - i,
    {
        proof {
            let prefix = chunks_view(chunks@).take(i + 1);
            assert(prefix.drop_last() =~= chunks_view(chunks@).take(i as int));
            assert(prefix.last() == bytes_seq(chunks@[i as int]));
            lemma_read_to_end_fails_on(chunks_view(chunks@), i + 1, limit as nat);
        }
        match read.push_chunk(&chunks[i]) {
            Ok(()) => {},
            Err(error) => {
                return Err(ReadToEndError::TooLong);
            },
        }
        i += 1;
    }
    assert(chunks_view(chunks@).take(i as int) =~= chunks_view(chunks@));
    Ok(read.into_bytes())
}

/// Once a start of the chunks is over the limit, so is the whole.
pub proof fn lemma_read_to_end_fails_on(chunks: Seq<Seq<u8>>, upto: int, limit: nat)
    requires
        0 <= upto <= chunks.len(),
    ensures
        spec_read_to_end(chunks.take(upto), limit) is None ==> spec_read_to_end(chunks, limit)
            is None,
    decreases chunks.len() - upto,
{
    if upto < chunks.len() {
        assert(chunks.take(upto + 1).drop_last() =~= chunks.take(upto));
        lemma_read_to_end_fails_on(chunks, upto + 1, limit);
    } else {
        assert(chunks.take(upto) =~= chunks);
    }
}

} // verus!
