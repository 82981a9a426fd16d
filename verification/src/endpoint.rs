//! The endpoint driver: which connection a datagram belongs to, who is next
//! to use the socket, and which connections wait to be accepted.

use crate::buf::{bytes_copy_from_slice, bytes_seq};
use crate::connection::{Datagram, EndpointEvent, EndpointNotice};
use crate::platform::{RecvMeta, SocketCapabilities, Transmit};
use crate::table::{
    distinct_keys, erase, lemma_erase, lemma_put, lemma_strip, lookup, put, strip, Table,
};
use crate::transport::{Poll, Socket, SocketError};
use crate::IO_LOOP_BOUND;
use std::collections::VecDeque;
use vstd::prelude::*;

verus! {

/// What becomes of an inbound datagram.
#[derive(Clone, Copy, Debug, PartialEq, Eq, Structural)]
pub enum Route {
    /// It belongs to this live connection
    Deliver(u64),
    /// It opens this new connection, which now waits to be accepted
    Accept(u64),
    /// It would open a connection, but the accept queue is full: it is
    /// dropped, and the peer will send it again
    Refuse,
    /// It belongs to no connection and opens none: it is discarded
    Discard,
}

/// Why a connection could not be opened or an identifier not be issued.
#[derive(Clone, Copy, Debug, PartialEq, Eq, Structural)]
pub enum IdError {
    /// The identifier already routes to a connection
    InUse,
    /// The connection does not exist or is drained
    UnknownConnection,
    /// No further connection can be numbered
    TooManyConnections,
}

/// What an endpoint holds, as plain values. A connection's handle is its
/// position in `live` and in `outgoing`.
pub struct EndpointState {
    /// The identifier table: which identifier routes to which connection
    pub ids: Seq<(u64, u64)>,
    /// For each connection ever opened, whether it is still live
    pub live: Seq<bool>,
    /// For each connection, its datagrams waiting for the socket, oldest first
    pub outgoing: Seq<Seq<Transmit>>,
    /// The connections accepted and not yet returned, oldest first
    pub accept: Seq<u64>,
    /// How many connections the accept queue takes
    pub accept_limit: nat,
    /// The connection whose turn at the socket comes first
    pub cursor: nat,
    /// The task suspended in `accept`, to be woken when a connection arrives
    pub acceptor: Option<u64>,
}

impl EndpointState {
    /// What holds of every endpoint: an identifier routes to one connection,
    /// which is live; the accept queue stays within its limit.
    pub open spec fn wf(self) -> bool {
        &&& distinct_keys(self.ids)
        &&& forall|i: int|
            0 <= i < self.ids.len() ==> (#[trigger] self.ids[i]).1 < self.live.len()
                && self.live[self.ids[i].1 as int]
        &&& self.outgoing.len() == self.live.len()
        &&& self.live.len() <= usize::MAX
        &&& forall|i: int| 0 <= i < self.accept.len() ==> (#[trigger] self.accept[i]) < self.live.len()
        &&& self.accept.len() <= self.accept_limit
        &&& self.cursor <= self.live.len()
    }

    /// An endpoint without connections.
    pub open spec fn empty(accept_limit: nat) -> Self {
        EndpointState {
            ids: Seq::empty(),
            live: Seq::empty(),
            outgoing: Seq::empty(),
            accept: Seq::empty(),
            accept_limit,
            cursor: 0,
            acceptor: None,
        }
    }

    /// Whether `handle` names a connection that is live.
    pub open spec fn is_live(self, handle: u64) -> bool {
        handle < self.live.len() && self.live[handle as int]
    }

    /// Whether `handle` names a connection that is drained and that no
    /// identifier routes to.
    pub open spec fn is_retired(self, handle: u64) -> bool {
        &&& handle < self.live.len()
        &&& !self.live[handle as int]
        &&& forall|i: int| 0 <= i < self.ids.len() ==> (#[trigger] self.ids[i]).1 != handle
    }

    /// The endpoint with a new live connection reached by `cid`; its handle
    /// is the number of connections opened before.
    pub open spec fn opened(self, cid: u64) -> Self {
        EndpointState {
            ids: put(self.ids, cid, self.live.len() as u64),
            live: self.live.push(true),
            outgoing: self.outgoing.push(Seq::empty()),
            ..self
        }
    }

    /// What becomes of a datagram addressed to `cid`; `first` says whether the
    /// engine found it a valid first packet of a new connection.
    pub open spec fn route(self, cid: u64, first: bool) -> (Self, Route) {
        match lookup(self.ids, cid) {
            Some(handle) => (self, Route::Deliver(handle)),
            None => if !first {
                (self, Route::Discard)
            } else if self.accept.len() >= self.accept_limit || self.live.len() >= usize::MAX {
                (self, Route::Refuse)
            } else {
                (
                    EndpointState {
                        accept: self.accept.push(self.live.len() as u64),
                        ..self.opened(cid)
                    },
                    Route::Accept(self.live.len() as u64),
                )
            },
        }
    }

    /// Open a connection from this side, reached by `cid`.
    pub open spec fn connect(self, cid: u64) -> (Self, Result<u64, IdError>) {
        if lookup(self.ids, cid) is Some {
            (self, Err(IdError::InUse))
        } else if self.live.len() >= usize::MAX {
            (self, Err(IdError::TooManyConnections))
        } else {
            (self.opened(cid), Ok(self.live.len() as u64))
        }
    }

    /// Route the further identifier `cid` to the live connection `handle`.
    pub open spec fn issue_id(self, handle: u64, cid: u64) -> (Self, Result<(), IdError>) {
        if !self.is_live(handle) {
            (self, Err(IdError::UnknownConnection))
        } else if lookup(self.ids, cid) is Some {
            (self, Err(IdError::InUse))
        } else {
            (EndpointState { ids: put(self.ids, cid, handle), ..self }, Ok(()))
        }
    }

    /// Stop routing `cid` to `handle`; nothing changes where it routes
    /// elsewhere or nowhere.
    pub open spec fn retire_id(self, handle: u64, cid: u64) -> Self {
        if lookup(self.ids, cid) == Some(handle) {
            EndpointState { ids: erase(self.ids, cid), ..self }
        } else {
            self
        }
    }

    /// The connection `handle` is drained: it is live no longer and every
    /// identifier of it leaves the table. What it still has for the socket
    /// stays queued.
    pub open spec fn retire(self, handle: u64) -> Self {
        if handle < self.live.len() {
            EndpointState {
                ids: strip(self.ids, handle),
                live: self.live.update(handle as int, false),
                ..self
            }
        } else {
            self
        }
    }

    /// Queue a datagram of connection `handle` for the socket; one of an
    /// unknown connection is dropped.
    pub open spec fn queue_transmit(self, handle: u64, transmit: Transmit) -> Self {
        if handle < self.live.len() {
            EndpointState {
                outgoing: self.outgoing.update(
                    handle as int,
                    self.outgoing[handle as int].push(transmit),
                ),
                ..self
            }
        } else {
            self
        }
    }

    /// What an event of connection `handle` does to the endpoint.
    pub open spec fn handle_event(self, handle: u64, event: EndpointEvent) -> Self {
        match event {
            EndpointEvent::Transmit(transmit) => self.queue_transmit(handle, transmit),
            EndpointEvent::Proto(EndpointNotice::Drained) => self.retire(handle),
            EndpointEvent::Proto(EndpointNotice::RetireConnectionId(cid)) => self.retire_id(
                handle,
                cid,
            ),
            EndpointEvent::Proto(EndpointNotice::IssueConnectionId(cid)) => self.issue_id(
                handle,
                cid,
            ).0,
        }
    }

    /// Hand out the connection that has waited longest to be accepted.
    pub open spec fn accept(self) -> (Self, Option<u64>) {
        if self.accept.len() > 0 {
            (EndpointState { accept: self.accept.skip(1), ..self }, Some(self.accept[0]))
        } else {
            (self, None)
        }
    }

    /// Accept on behalf of `task`: the connection that has waited longest, or,
    /// with none waiting, the task's registration to be woken when one comes,
    /// in place of whoever waited before.
    pub open spec fn poll_accept(self, task: u64) -> (Self, Poll<u64>) {
        if self.accept.len() > 0 {
            (EndpointState { accept: self.accept.skip(1), ..self }, Poll::Ready(self.accept[0]))
        } else {
            (EndpointState { acceptor: Some(task), ..self }, Poll::Pending)
        }
    }

    /// The task to wake because a connection waits to be accepted: the one
    /// registered, whose registration ends; nobody while none waits.
    pub open spec fn wake_acceptor(self) -> (Self, Option<u64>) {
        if self.accept.len() > 0 {
            (EndpointState { acceptor: None, ..self }, self.acceptor)
        } else {
            (self, None)
        }
    }
}

/// Opening a connection keeps the endpoint well formed; the new identifier
/// routes to the new connection and every other one routes as before.
pub proof fn lemma_opened(s: EndpointState, cid: u64)
    requires
        s.wf(),
        s.live.len() < usize::MAX,
    ensures
        s.opened(cid).wf(),
        lookup(s.opened(cid).ids, cid) == Some(s.live.len() as u64),
        forall|other: u64| other != cid ==> lookup(s.opened(cid).ids, other) == lookup(s.ids, other),
{
    let t = s.opened(cid);
    lemma_put(s.ids, cid, s.live.len() as u64);
    lemma_erase(s.ids, cid);
    let e = erase(s.ids, cid);
    assert forall|i: int| 0 <= i < t.ids.len() implies (#[trigger] t.ids[i]).1 < t.live.len()
        && t.live[t.ids[i].1 as int] by {
        if i < e.len() {
            let k = choose|k: int| 0 <= k < s.ids.len() && s.ids[k] == e[i];
            assert(s.ids[k].1 < s.live.len());
        }
    }
}

/// Every routing decision keeps the endpoint well formed.
pub proof fn lemma_route_wf(s: EndpointState, cid: u64, first: bool)
    requires
        s.wf(),
    ensures
        s.route(cid, first).0.wf(),
{
    if lookup(s.ids, cid) is None && first && s.accept.len() < s.accept_limit && s.live.len()
        < usize::MAX {
        lemma_opened(s, cid);
        let t = s.route(cid, first).0;
        assert forall|i: int| 0 <= i < t.accept.len() implies (#[trigger] t.accept[i])
            < t.live.len() by {
            if i < s.accept.len() {
                assert(s.accept[i] < s.live.len());
            }
        }
    }
}

/// Retiring a connection keeps the endpoint well formed and leaves the
/// connection retired.
pub proof fn lemma_retire(s: EndpointState, handle: u64)
    requires
        s.wf(),
    ensures
        s.retire(handle).wf(),
        handle < s.live.len() ==> s.retire(handle).is_retired(handle),
        forall|other: u64| s.is_retired(other) ==> s.retire(handle).is_retired(other),
{
    if handle < s.live.len() {
        lemma_strip(s.ids, handle);
        let t = s.retire(handle);
        assert forall|i: int| 0 <= i < t.ids.len() implies (#[trigger] t.ids[i]).1 < t.live.len()
            && t.live[t.ids[i].1 as int] by {
            let k = choose|k: int| 0 <= k < s.ids.len() && s.ids[k] == t.ids[i];
            assert(s.ids[k].1 < s.live.len());
        }
        assert forall|other: u64| s.is_retired(other) implies t.is_retired(other) by {
            assert forall|i: int| 0 <= i < t.ids.len() implies (#[trigger] t.ids[i]).1 != other by {
                let k = choose|k: int| 0 <= k < s.ids.len() && s.ids[k] == t.ids[i];
                assert(s.ids[k].1 != other);
            }
        }
    }
}

/// An identifier that routes somewhere is in the table with that handle.
pub proof fn lemma_lookup_entry(ids: Seq<(u64, u64)>, cid: u64)
    requires
        lookup(ids, cid) is Some,
    ensures
        exists|i: int| 0 <= i < ids.len() && #[trigger] ids[i] == (cid, lookup(ids, cid)->Some_0),
    decreases ids.len(),
{
    if ids.len() > 0 {
        if ids.last().0 == cid {
            assert(ids[ids.len() - 1] == (cid, lookup(ids, cid)->Some_0));
        } else {
            lemma_lookup_entry(ids.drop_last(), cid);
            let k = choose|k: int|
                0 <= k < ids.drop_last().len() && #[trigger] ids.drop_last()[k] == (
                    cid,
                    lookup(ids, cid)->Some_0,
                );
            assert(ids[k] == (cid, lookup(ids, cid)->Some_0));
        }
    }
}

/// After a connection is drained, a datagram addressed to any identifier it
/// had is discarded, unless the engine finds it a valid first packet of a new
/// connection; and then it opens another connection, never the drained one.
pub proof fn law_drained_is_unroutable(s: EndpointState, handle: u64, cid: u64, first: bool)
    requires
        s.wf(),
        lookup(s.ids, cid) == Some(handle),
    ensures
        s.retire(handle).is_retired(handle),
        lookup(s.retire(handle).ids, cid) is None,
        !first ==> s.retire(handle).route(cid, first) == (s.retire(handle), Route::Discard),
        s.retire(handle).route(cid, first).1 != Route::Deliver(handle),
        s.retire(handle).route(cid, first).1 != Route::Accept(handle),
        s.retire(handle).route(cid, first).0.is_retired(handle),
{
    lemma_lookup_entry(s.ids, cid);
    lemma_retire(s, handle);
    lemma_strip(s.ids, handle);
    law_retired_stays_retired(s.retire(handle), handle, cid, first);
}

/// No resurrection: whatever datagram arrives, a retired connection stays
/// retired and the datagram is neither delivered to it nor accepted as it.
pub proof fn law_retired_stays_retired(s: EndpointState, handle: u64, cid: u64, first: bool)
    requires
        s.wf(),
        s.is_retired(handle),
    ensures
        s.route(cid, first).0.is_retired(handle),
        s.route(cid, first).1 != Route::Deliver(handle),
        s.route(cid, first).1 != Route::Accept(handle),
{
    match lookup(s.ids, cid) {
        Some(found) => {
            lemma_lookup_entry(s.ids, cid);
        },
        None => {
            if first && s.accept.len() < s.accept_limit && s.live.len() < usize::MAX {
                let t = s.route(cid, first).0;
                lemma_erase(s.ids, cid);
                let e = erase(s.ids, cid);
                assert forall|i: int| 0 <= i < t.ids.len() implies (#[trigger] t.ids[i]).1
                    != handle by {
                    if i < e.len() {
                        let k = choose|k: int| 0 <= k < s.ids.len() && s.ids[k] == e[i];
                        assert(s.ids[k].1 != handle);
                    }
                }
            }
        },
    }
}

/// Events of connections keep the endpoint well formed, and none of them
/// brings a retired connection back.
pub proof fn lemma_handle_event(s: EndpointState, handle: u64, event: EndpointEvent)
    requires
        s.wf(),
    ensures
        s.handle_event(handle, event).wf(),
        forall|other: u64| s.is_retired(other) ==> s.handle_event(handle, event).is_retired(other),
{
    let t = s.handle_event(handle, event);
    match event {
        EndpointEvent::Transmit(transmit) => {},
        EndpointEvent::Proto(EndpointNotice::Drained) => {
            lemma_retire(s, handle);
        },
        EndpointEvent::Proto(EndpointNotice::RetireConnectionId(cid)) => {
            lemma_erase(s.ids, cid);
            if lookup(s.ids, cid) == Some(handle) {
                assert forall|i: int| 0 <= i < t.ids.len() implies (#[trigger] t.ids[i]).1
                    < t.live.len() && t.live[t.ids[i].1 as int] by {
                    let k = choose|k: int| 0 <= k < s.ids.len() && s.ids[k] == t.ids[i];
                    assert(s.ids[k].1 < s.live.len());
                }
                assert forall|other: u64| s.is_retired(other) implies t.is_retired(other) by {
                    assert forall|i: int| 0 <= i < t.ids.len() implies (#[trigger] t.ids[i]).1
                        != other by {
                        let k = choose|k: int| 0 <= k < s.ids.len() && s.ids[k] == t.ids[i];
                        assert(s.ids[k].1 != other);
                    }
                }
            }
        },
        EndpointEvent::Proto(EndpointNotice::IssueConnectionId(cid)) => {
            lemma_issue_id(s, handle, cid);
        },
    }
}

/// Issuing an identifier keeps the endpoint well formed and brings no retired
/// connection back.
pub proof fn lemma_issue_id(s: EndpointState, handle: u64, cid: u64)
    requires
        s.wf(),
    ensures
        s.issue_id(handle, cid).0.wf(),
        forall|other: u64| s.is_retired(other) ==> s.issue_id(handle, cid).0.is_retired(other),
{
    let t = s.issue_id(handle, cid).0;
    if s.is_live(handle) && lookup(s.ids, cid) is None {
        lemma_put(s.ids, cid, handle);
        lemma_erase(s.ids, cid);
        let e = erase(s.ids, cid);
        assert forall|i: int| 0 <= i < t.ids.len() implies (#[trigger] t.ids[i]).1 < t.live.len()
            && t.live[t.ids[i].1 as int] by {
            if i < e.len() {
                let k = choose|k: int| 0 <= k < s.ids.len() && s.ids[k] == e[i];
                assert(s.ids[k].1 < s.live.len());
            }
        }
        assert forall|other: u64| s.is_retired(other) implies t.is_retired(other) by {
            assert forall|i: int| 0 <= i < t.ids.len() implies (#[trigger] t.ids[i]).1 != other by {
                if i < e.len() {
                    let k = choose|k: int| 0 <= k < s.ids.len() && s.ids[k] == e[i];
                    assert(s.ids[k].1 != other);
                }
            }
        }
    }
}

/// How a round of sending or receiving ends.
#[derive(Clone, Copy, Debug, PartialEq, Eq, Structural)]
pub enum IoOutcome {
    /// Nothing is left to do
    Idle,
    /// The socket would block: wait until it is worth trying again
    Blocked,
    /// The cap on socket calls per turn was reached: run again soon
    Yield,
    /// The socket failed for good, which ends the endpoint
    Failed(SocketError),
}

/// The first connection among `from..to` that has something for the socket.
pub open spec fn first_ready(outgoing: Seq<Seq<Transmit>>, from: int, to: int) -> Option<int>
    decreases to - from,
{
    if from >= to {
        None
    } else if 0 <= from < outgoing.len() && outgoing[from].len() > 0 {
        Some(from)
    } else {
        first_ready(outgoing, from + 1, to)
    }
}

/// What `first_ready` finds is the first one, and it finds one if there is
/// one.
pub proof fn lemma_first_ready(outgoing: Seq<Seq<Transmit>>, from: int, to: int)
    requires
        0 <= from,
        to <= outgoing.len(),
    ensures
        match first_ready(outgoing, from, to) {
            Some(at) => {
                &&& from <= at < to
                &&& outgoing[at].len() > 0
                &&& forall|k: int| from <= k < at ==> (#[trigger] outgoing[k]).len() == 0
            },
            None => forall|k: int| from <= k < to ==> (#[trigger] outgoing[k]).len() == 0,
        },
    decreases to - from,
{
    if from < to {
        lemma_first_ready(outgoing, from + 1, to);
    }
}

/// Whether `rest` is what is left of `queue` after some of its oldest
/// elements left.
pub open spec fn is_rest_of(rest: Seq<Transmit>, queue: Seq<Transmit>) -> bool {
    exists|gone: int| 0 <= gone <= queue.len() && rest == #[trigger] queue.skip(gone)
}

impl EndpointState {
    /// Whose turn at the socket it is: the first connection with something to
    /// send, going round from the cursor. `None` when nobody has anything.
    pub open spec fn next_ready(self) -> Option<u64> {
        match first_ready(self.outgoing, self.cursor as int, self.outgoing.len() as int) {
            Some(at) => Some(at as u64),
            None => match first_ready(self.outgoing, 0, self.cursor as int) {
                Some(at) => Some(at as u64),
                None => None,
            },
        }
    }

    /// The batch that connection `handle` submits: its oldest datagrams, as
    /// many as the socket takes at once.
    pub open spec fn batch(self, handle: u64, max: nat) -> Seq<Transmit> {
        let queue = self.outgoing[handle as int];
        queue.take(if max < queue.len() {
            max as int
        } else {
            queue.len() as int
        })
    }

    /// The endpoint after the socket answered `result` to the submission of
    /// `batch` for connection `handle`, and how the round goes on; `None` says
    /// that it simply goes on. What was not sent is first in the connection's
    /// queue again, and after a send the turn passes to the next connection. A
    /// batch of an unknown connection is dropped.
    pub open spec fn finish_send(
        self,
        handle: u64,
        batch: Seq<Transmit>,
        result: Poll<Result<usize, SocketError>>,
    ) -> (Self, Option<IoOutcome>) {
        (
            if handle < self.live.len() {
                EndpointState {
                    outgoing: self.outgoing.update(
                        handle as int,
                        batch.skip(spec_sent(result, batch.len()) as int)
                            + self.outgoing[handle as int],
                    ),
                    cursor: if result is Ready && result->Ready_0 is Ok {
                        (handle + 1) as nat
                    } else {
                        self.cursor
                    },
                    ..self
                }
            } else {
                self
            },
            match result {
                Poll::Ready(Ok(_)) => None,
                Poll::Ready(Err(error)) => Some(IoOutcome::Failed(error)),
                Poll::Pending => Some(IoOutcome::Blocked),
            },
        )
    }

    /// The endpoint after connection `handle` took its batch of at most `max`
    /// datagrams off its queue, to submit it.
    pub open spec fn begun(self, handle: u64, max: nat) -> Self {
        EndpointState {
            outgoing: self.outgoing.update(
                handle as int,
                self.outgoing[handle as int].skip(self.batch(handle, max).len() as int),
            ),
            ..self
        }
    }

    /// Whether every queue of `self` is what is left of the same queue of
    /// `before`, and nothing else differs but the cursor.
    pub open spec fn only_sent_since(self, before: Self) -> bool {
        &&& self.ids == before.ids
        &&& self.live == before.live
        &&& self.accept == before.accept
        &&& self.accept_limit == before.accept_limit
        &&& self.acceptor == before.acceptor
        &&& self.outgoing.len() == before.outgoing.len()
        &&& forall|h: int|
            0 <= h < self.outgoing.len() ==> is_rest_of(
                #[trigger] self.outgoing[h],
                before.outgoing[h],
            )
    }
}

/// The most datagrams a connection submits at once on a socket with these
/// capabilities: what the socket takes, and one at least.
pub open spec fn spec_batch_limit(caps: SocketCapabilities) -> nat {
    if caps.max_gso_segments < 1 {
        1
    } else {
        caps.max_gso_segments as nat
    }
}

/// One submission to the socket as a round of sending made it: the endpoint
/// before it, what the socket answered, and the endpoint after it.
pub struct Submission {
    /// The endpoint when the submission began
    pub before: EndpointState,
    /// What the socket answered
    pub answer: Poll<Result<usize, SocketError>>,
    /// The endpoint when the submission was finished
    pub after: EndpointState,
}

impl Submission {
    /// Whether the round goes on after this submission: the socket sent.
    pub open spec fn goes_on(self) -> bool {
        self.answer is Ready && self.answer->Ready_0 is Ok
    }

    /// The connection whose turn it was.
    pub open spec fn handle(self) -> u64 {
        self.before.next_ready()->Some_0
    }

    /// What was handed to the socket: the batch of the connection whose turn
    /// it was, of at most `max` datagrams.
    pub open spec fn batch(self, max: nat) -> Seq<Transmit> {
        self.before.batch(self.handle(), max)
    }

    /// Whether this is a submission as the driver makes them: it was
    /// somebody's turn, that connection's batch was taken off its queue and
    /// handed to the socket, and the endpoint afterwards is what `finish_send`
    /// makes of the socket's answer.
    pub open spec fn wf(self, max: nat) -> bool {
        &&& self.before.next_ready() is Some
        &&& self.after == self.before.begun(self.handle(), max).finish_send(
            self.handle(),
            self.batch(max),
            self.answer,
        ).0
    }
}

/// Whether `history` is a round of sending that starts at `start` with
/// batches of at most `max`: at most `IO_LOOP_BOUND` submissions, each as the
/// driver makes them and each beginning where the one before ended, and every
/// one but the last sent by the socket.
pub open spec fn is_send_round(history: Seq<Submission>, start: EndpointState, max: nat) -> bool {
    &&& history.len() <= IO_LOOP_BOUND
    &&& forall|i: int| 0 <= i < history.len() ==> (#[trigger] history[i]).wf(max)
    &&& forall|i: int| 0 <= i < history.len() - 1 ==> (#[trigger] history[i]).goes_on()
    &&& forall|i: int|
        0 <= i < history.len() ==> (#[trigger] history[i]).before == if i == 0 {
            start
        } else {
            history[i - 1].after
        }
}

/// The endpoint at the end of a round of sending.
pub open spec fn send_round_end(history: Seq<Submission>, start: EndpointState) -> EndpointState {
    if history.len() == 0 {
        start
    } else {
        history.last().after
    }
}

/// How a round of sending ends: `Blocked` or `Failed` as the last answer of
/// the socket says; `Yield` when the socket sent and the cap was reached;
/// `Idle` when nothing was left to submit.
pub open spec fn send_round_outcome(history: Seq<Submission>) -> IoOutcome {
    if history.len() == 0 {
        IoOutcome::Idle
    } else {
        match history.last().answer {
            Poll::Pending => IoOutcome::Blocked,
            Poll::Ready(Err(error)) => IoOutcome::Failed(error),
            Poll::Ready(Ok(_)) => if history.len() == IO_LOOP_BOUND {
                IoOutcome::Yield
            } else {
                IoOutcome::Idle
            },
        }
    }
}

/// A round with one more submission, which begins where the round ended, is
/// a round, and ends where the submission ended.
pub proof fn lemma_extend_round(
    history: Seq<Submission>,
    start: EndpointState,
    max: nat,
    submission: Submission,
)
    requires
        is_send_round(history, start, max),
        history.len() < IO_LOOP_BOUND,
        forall|i: int| 0 <= i < history.len() ==> (#[trigger] history[i]).goes_on(),
        submission.wf(max),
        submission.before == send_round_end(history, start),
    ensures
        is_send_round(history.push(submission), start, max),
        send_round_end(history.push(submission), start) == submission.after,
{
    let longer = history.push(submission);
    assert forall|i: int| 0 <= i < longer.len() implies (#[trigger] longer[i]).wf(max) by {
        if i < history.len() {
            assert(longer[i] == history[i]);
        }
    }
    assert forall|i: int| 0 <= i < longer.len() - 1 implies (#[trigger] longer[i]).goes_on() by {
        assert(longer[i] == history[i]);
    }
    assert forall|i: int| 0 <= i < longer.len() implies (#[trigger] longer[i]).before == if i
        == 0 {
        start
    } else {
        longer[i - 1].after
    } by {
        if i < history.len() {
            assert(longer[i] == history[i]);
            if i > 0 {
                assert(longer[i - 1] == history[i - 1]);
            }
        } else if i > 0 {
            assert(longer[i - 1] == history[i - 1]);
            assert(history[i - 1] == history.last());
        }
    }
}

/// A submission only sends: it keeps the endpoint well formed, and each queue
/// after it is what is left of the queue before it.
pub proof fn lemma_submission_only_sends(submission: Submission, max: nat)
    requires
        submission.before.wf(),
        submission.wf(max),
    ensures
        submission.handle() < submission.before.live.len(),
        submission.after.wf(),
        submission.after.only_sent_since(submission.before),
{
    let before = submission.before;
    let after = submission.after;
    lemma_first_ready(before.outgoing, before.cursor as int, before.outgoing.len() as int);
    lemma_first_ready(before.outgoing, 0, before.cursor as int);
    let handle = submission.handle();
    let queue = before.outgoing[handle as int];
    let held = submission.batch(max);
    let sent = spec_sent(submission.answer, held.len());
    assert(after.outgoing[handle as int] =~= queue.skip(sent as int)) by {
        assert(held.skip(sent as int) + queue.skip(held.len() as int) =~= queue.skip(sent as int));
    }
    assert forall|h: int| 0 <= h < after.outgoing.len() implies is_rest_of(
        #[trigger] after.outgoing[h],
        before.outgoing[h],
    ) by {
        if h == handle {
            assert(after.outgoing[h] == before.outgoing[h].skip(sent as int));
        } else {
            assert(after.outgoing[h] =~= before.outgoing[h].skip(0));
        }
    }
}

/// What only sent since a state that only sent since another, only sent since
/// that other.
pub proof fn lemma_only_sent_since(last: EndpointState, middle: EndpointState, first: EndpointState)
    requires
        last.only_sent_since(middle),
        middle.only_sent_since(first),
    ensures
        last.only_sent_since(first),
{
    assert forall|h: int| 0 <= h < last.outgoing.len() implies is_rest_of(
        #[trigger] last.outgoing[h],
        first.outgoing[h],
    ) by {
        assert(is_rest_of(last.outgoing[h], middle.outgoing[h]));
        assert(is_rest_of(middle.outgoing[h], first.outgoing[h]));
        lemma_rest_of_rest(last.outgoing[h], middle.outgoing[h], first.outgoing[h]);
    }
}

/// The caps of a round of sending. A round makes at most `IO_LOOP_BOUND`
/// submissions, and each hands the socket no more than `max` datagrams: the
/// oldest ones of the connection whose turn it is, in their order.
pub proof fn law_round_respects_caps(history: Seq<Submission>, start: EndpointState, max: nat)
    requires
        is_send_round(history, start, max),
    ensures
        history.len() <= IO_LOOP_BOUND,
        forall|i: int|
            0 <= i < history.len() ==> {
                let queue = (#[trigger] history[i]).before.outgoing[history[i].handle() as int];
                &&& history[i].batch(max).len() <= max
                &&& history[i].batch(max).len() <= queue.len()
                &&& history[i].batch(max) == queue.take(history[i].batch(max).len() as int)
            },
{
    assert forall|i: int| 0 <= i < history.len() implies {
        let queue = (#[trigger] history[i]).before.outgoing[history[i].handle() as int];
        &&& history[i].batch(max).len() <= max
        &&& history[i].batch(max).len() <= queue.len()
        &&& history[i].batch(max) == queue.take(history[i].batch(max).len() as int)
    } by {
        assert(history[i].wf(max));
    }
}

/// The rest of a rest is a rest.
pub proof fn lemma_rest_of_rest(a: Seq<Transmit>, b: Seq<Transmit>, c: Seq<Transmit>)
    requires
        is_rest_of(a, b),
        is_rest_of(b, c),
    ensures
        is_rest_of(a, c),
{
    let i = choose|gone: int| 0 <= gone <= b.len() && a == #[trigger] b.skip(gone);
    let j = choose|gone: int| 0 <= gone <= c.len() && b == #[trigger] c.skip(gone);
    assert(c.skip(i + j) =~= c.skip(j).skip(i));
}

/// Taking turns. After the socket sent for a connection, that connection's
/// turn comes again only when no other connection has anything to send.
pub proof fn law_sender_goes_last(
    s: EndpointState,
    handle: u64,
    batch: Seq<Transmit>,
    sent: usize,
)
    requires
        s.wf(),
        handle < s.live.len(),
    ensures
        ({
            let after = s.finish_send(handle, batch, Poll::Ready(Ok(sent))).0;
            after.next_ready() == Some(handle) ==> forall|other: int|
                0 <= other < after.outgoing.len() && other != handle ==> (
                #[trigger] after.outgoing[other]).len() == 0
        }),
{
    let after = s.finish_send(handle, batch, Poll::Ready(Ok(sent))).0;
    lemma_first_ready(after.outgoing, handle + 1, after.outgoing.len() as int);
    lemma_first_ready(after.outgoing, 0, handle + 1);
}

/// The queues of the connections as sequences.
pub open spec fn queues_view(queues: Seq<VecDeque<Transmit>>) -> Seq<Seq<Transmit>> {
    Seq::new(queues.len(), |i: int| queues[i]@)
}

/// The endpoint driver.
pub struct EndpointDriver {
    ids: Table,
    live: Vec<bool>,
    outgoing: Vec<VecDeque<Transmit>>,
    accept: VecDeque<u64>,
    accept_limit: usize,
    cursor: usize,
    acceptor: Option<u64>,
}

impl View for EndpointDriver {
    type V = EndpointState;

    closed spec fn view(&self) -> EndpointState {
        EndpointState {
            ids: self.ids@,
            live: self.live@,
            outgoing: queues_view(self.outgoing@),
            accept: self.accept@,
            accept_limit: self.accept_limit as nat,
            cursor: self.cursor as nat,
            acceptor: self.acceptor,
        }
    }
}

impl EndpointDriver {
    #[verifier::type_invariant]
    spec fn inv(self) -> bool {
        self@.wf()
    }

    /// An endpoint without connections whose accept queue takes
    /// `accept_limit` connections.
    pub fn new(accept_limit: usize) -> (e: Self)
        ensures
            e@ == EndpointState::empty(accept_limit as nat),
            e@.wf(),
    {
        let e = EndpointDriver {
            ids: Table::new(),
            live: Vec::new(),
            outgoing: Vec::new(),
            accept: VecDeque::new(),
            accept_limit,
            cursor: 0,
            acceptor: None,
        };
        assert(queues_view(e.outgoing@) =~= Seq::empty());
        e
    }

    /// Add a live connection reached by `cid` and return its handle.
    fn open(&mut self, cid: u64, queue_for_accept: bool) -> (handle: u64)
        requires
            old(self)@.live.len() < usize::MAX,
            lookup(old(self)@.ids, cid) is None,
            queue_for_accept ==> old(self)@.accept.len() < old(self)@.accept_limit,
        ensures
            handle == old(self)@.live.len(),
            !queue_for_accept ==> final(self)@ == old(self)@.opened(cid),
            queue_for_accept ==> final(self)@ == (EndpointState {
                accept: old(self)@.accept.push(handle),
                ..old(self)@.opened(cid)
            }),
            final(self)@.wf(),
    {
        proof {
            use_type_invariant(&*self);
            lemma_opened(self@, cid);
            lemma_route_wf(self@, cid, true);
        }
        let ghost before = self@;
        let mut taken = EndpointDriver::new(0);
        std::mem::swap(self, &mut taken);
        let EndpointDriver { ids, live, outgoing, accept, accept_limit, cursor, acceptor } = taken;
        let mut ids = ids;
        let mut live = live;
        let mut outgoing = outgoing;
        let mut accept = accept;
        let handle: u64 = live.len() as u64;
        ids.insert(cid, handle);
        live.push(true);
        outgoing.push(VecDeque::new());
        if queue_for_accept {
            accept.push_back(handle);
        }
        assert(queues_view(outgoing@) =~= before.outgoing.push(Seq::empty()));
        *self = EndpointDriver { ids, live, outgoing, accept, accept_limit, cursor, acceptor };
        handle
    }

    /// Decide what becomes of a datagram addressed to `cid`; `first` says
    /// whether the engine found it a valid first packet of a new connection.
    /// A datagram of a live connection is delivered to it. A first packet
    /// opens a connection and queues it for `accept`, or is refused while the
    /// accept queue is full. Anything else is discarded.
    pub fn route(&mut self, cid: u64, first: bool) -> (r: Route)
        ensures
            (final(self)@, r) == old(self)@.route(cid, first),
            final(self)@.wf(),
    {
        proof {
            use_type_invariant(&*self);
        }
        match self.ids.get(cid) {
            Some(handle) => Route::Deliver(handle),
            None => {
                if !first {
                    Route::Discard
                } else if self.accept.len() >= self.accept_limit || self.live.len() >= usize::MAX {
                    Route::Refuse
                } else {
                    let handle = self.open(cid, true);
                    Route::Accept(handle)
                }
            },
        }
    }

    /// Open a connection from this side, reached by `cid`. It does not pass
    /// through the accept queue.
    pub fn connect(&mut self, cid: u64) -> (r: Result<u64, IdError>)
        ensures
            (final(self)@, r) == old(self)@.connect(cid),
            final(self)@.wf(),
    {
        proof {
            use_type_invariant(&*self);
        }
        match self.ids.get(cid) {
            Some(_) => Err(IdError::InUse),
            None => {
                if self.live.len() >= usize::MAX {
                    Err(IdError::TooManyConnections)
                } else {
                    let handle = self.open(cid, false);
                    Ok(handle)
                }
            },
        }
    }

    /// Whether `handle` names a live connection.
    pub fn is_live(&self, handle: u64) -> (live: bool)
        ensures
            live == self@.is_live(handle),
    {
        proof {
            use_type_invariant(self);
        }
        if handle < self.live.len() as u64 {
            self.live[handle as usize]
        } else {
            false
        }
    }

    /// Route the further identifier `cid` to the live connection `handle`.
    pub fn issue_id(&mut self, handle: u64, cid: u64) -> (r: Result<(), IdError>)
        ensures
            (final(self)@, r) == old(self)@.issue_id(handle, cid),
            final(self)@.wf(),
    {
        proof {
            use_type_invariant(&*self);
            lemma_issue_id(self@, handle, cid);
        }
        if !self.is_live(handle) {
            return Err(IdError::UnknownConnection);
        }
        match self.ids.get(cid) {
            Some(_) => Err(IdError::InUse),
            None => {
                let mut taken = EndpointDriver::new(0);
                std::mem::swap(self, &mut taken);
                let EndpointDriver { ids, live, outgoing, accept, accept_limit, cursor, acceptor } = taken;
                let mut ids = ids;
                ids.insert(cid, handle);
                *self = EndpointDriver { ids, live, outgoing, accept, accept_limit, cursor, acceptor };
                Ok(())
            },
        }
    }

    /// The connection `handle` is drained: every identifier of it leaves the
    /// table, and datagrams addressed to them are unroutable from now on.
    pub fn retire(&mut self, handle: u64)
        ensures
            final(self)@ == old(self)@.retire(handle),
            final(self)@.wf(),
    {
        proof {
            use_type_invariant(&*self);
            lemma_retire(self@, handle);
        }
        if handle < self.live.len() as u64 {
            let mut taken = EndpointDriver::new(0);
            std::mem::swap(self, &mut taken);
            let EndpointDriver { ids, live, outgoing, accept, accept_limit, cursor, acceptor } = taken;
            let mut ids = ids;
            let mut live = live;
            ids.remove_value(handle);
            live.set(handle as usize, false);
            *self = EndpointDriver { ids, live, outgoing, accept, accept_limit, cursor, acceptor };
        }
    }

    /// Take in an event of connection `handle`: queue its datagram for the
    /// socket, or update the identifier table.
    pub fn handle_event(&mut self, handle: u64, event: EndpointEvent)
        ensures
            final(self)@ == old(self)@.handle_event(handle, event),
            final(self)@.wf(),
    {
        proof {
            use_type_invariant(&*self);
            lemma_handle_event(self@, handle, event);
        }
        let ghost before = self@;
        match event {
            EndpointEvent::Transmit(transmit) => {
                if handle < self.live.len() as u64 {
                    let mut taken = EndpointDriver::new(0);
                    std::mem::swap(self, &mut taken);
                    let EndpointDriver {
                        ids,
                        live,
                        outgoing,
                        accept,
                        accept_limit,
                        cursor,
                        acceptor,
                    } = taken;
                    let mut outgoing = outgoing;
                    let mut queue: VecDeque<Transmit> = VecDeque::new();
                    std::mem::swap(&mut queue, &mut outgoing[handle as usize]);
                    queue.push_back(transmit);
                    outgoing.set(handle as usize, queue);
                    assert(queues_view(outgoing@) =~= before.outgoing.update(
                        handle as int,
                        before.outgoing[handle as int].push(transmit),
                    ));
                    *self = EndpointDriver { ids, live, outgoing, accept, accept_limit, cursor, acceptor };
                }
            },
            EndpointEvent::Proto(EndpointNotice::Drained) => {
                self.retire(handle);
            },
            EndpointEvent::Proto(EndpointNotice::RetireConnectionId(cid)) => {
                let routed = self.ids.get(cid);
                let same: bool = match routed {
                    Some(to) => to == handle,
                    None => false,
                };
                if same {
                    let mut taken = EndpointDriver::new(0);
                    std::mem::swap(self, &mut taken);
                    let EndpointDriver {
                        ids,
                        live,
                        outgoing,
                        accept,
                        accept_limit,
                        cursor,
                        acceptor,
                    } = taken;
                    let mut ids = ids;
                    let _ = ids.remove(cid);
                    *self = EndpointDriver { ids, live, outgoing, accept, accept_limit, cursor, acceptor };
                }
            },
            EndpointEvent::Proto(EndpointNotice::IssueConnectionId(cid)) => {
                let _ = self.issue_id(handle, cid);
            },
        }
    }

    /// Hand out the connection that has waited longest to be accepted.
    pub fn accept(&mut self) -> (r: Option<u64>)
        ensures
            (final(self)@, r) == old(self)@.accept(),
            final(self)@.wf(),
    {
        proof {
            use_type_invariant(&*self);
        }
        let ghost before = self@;
        let mut taken = EndpointDriver::new(0);
        std::mem::swap(self, &mut taken);
        let EndpointDriver { ids, live, outgoing, accept, accept_limit, cursor, acceptor } = taken;
        let mut accept = accept;
        let r = accept.pop_front();
        assert(r is Some ==> accept@ =~= before.accept.skip(1));
        *self = EndpointDriver { ids, live, outgoing, accept, accept_limit, cursor, acceptor };
        r
    }

    /// The handles of the live connections, in the order in which they were
    /// opened: those that a failure of the socket is to be reported to.
    pub fn live_connections(&self) -> (handles: Vec<u64>)
        ensures
            forall|h: u64| handles@.contains(h) <==> self@.is_live(h),
            forall|i: int, j: int| 0 <= i < j < handles@.len() ==> handles@[i] < handles@[j],
    {
        let mut handles: Vec<u64> = Vec::new();
        let mut i: usize = 0;
        while i < self.live.len()
            invariant
                i <= self.live.len(),
                self@.live == self.live@,
                forall|h: u64| handles@.contains(h) <==> h < i && self@.is_live(h),
                forall|a: int, b: int| 0 <= a < b < handles@.len() ==> handles@[a] < handles@[b],
                forall|a: int| 0 <= a < handles@.len() ==> handles@[a] < i,
            decreases self.live.len() - i,
        {
            if self.live[i] {
                let ghost before = handles@;
                handles.push(i as u64);
                assert forall|h: u64| handles@.contains(h) <==> h < i + 1 && self@.is_live(
                    h,
                ) by {
                    if handles@.contains(h) {
                        let k = choose|k: int| 0 <= k < handles@.len() && handles@[k] == h;
                        if k < before.len() {
                            assert(before[k] == h);
                            assert(before.contains(h));
                        }
                    }
                    if h < i + 1 && self@.is_live(h) {
                        if h < i {
                            assert(before.contains(h));
                            let k = choose|k: int| 0 <= k < before.len() && before[k] == h;
                            assert(handles@[k] == h);
                        } else {
                            assert(handles@[before.len() as int] == h);
                        }
                    }
                }
            }
            i += 1;
        }
        handles
    }

    /// Accept on behalf of `task`: ready with the connection that has waited
    /// longest, or pending, with `task` registered to be woken when a
    /// connection arrives.
    pub fn poll_accept(&mut self, task: u64) -> (r: Poll<u64>)
        ensures
            (final(self)@, r) == old(self)@.poll_accept(task),
            final(self)@.wf(),
    {
        proof {
            use_type_invariant(&*self);
        }
        if self.accept.len() > 0 {
            match self.accept() {
                Some(handle) => Poll::Ready(handle),
                None => Poll::Pending,
            }
        } else {
            self.acceptor = Some(task);
            Poll::Pending
        }
    }

    /// The task to wake because a connection waits to be accepted. To be
    /// called after datagrams were routed.
    pub fn wake_acceptor(&mut self) -> (wake: Option<u64>)
        ensures
            (final(self)@, wake) == old(self)@.wake_acceptor(),
            final(self)@.wf(),
    {
        proof {
            use_type_invariant(&*self);
        }
        if self.accept.len() > 0 {
            let wake = self.acceptor;
            self.acceptor = None;
            wake
        } else {
            None
        }
    }

    /// How many connections wait to be accepted.
    pub fn accept_queue_len(&self) -> (n: usize)
        ensures
            n == self@.accept.len(),
    {
        self.accept.len()
    }

    /// How many connections were ever opened.
    pub fn connection_count(&self) -> (n: usize)
        ensures
            n == self@.live.len(),
    {
        self.live.len()
    }

    /// The connection that `cid` routes to.
    pub fn lookup(&self, cid: u64) -> (r: Option<u64>)
        ensures
            r == lookup(self@.ids, cid),
    {
        self.ids.get(cid)
    }

    /// How many datagrams of connection `handle` wait for the socket.
    pub fn pending_transmits(&self, handle: u64) -> (n: usize)
        ensures
            n == if handle < self@.live.len() {
                self@.outgoing[handle as int].len()
            } else {
                0
            },
    {
        proof {
            use_type_invariant(self);
        }
        if handle < self.live.len() as u64 {
            self.outgoing[handle as usize].len()
        } else {
            0
        }
    }

    /// Whose turn at the socket it is.
    pub fn next_ready(&self) -> (r: Option<u64>)
        ensures
            r == self@.next_ready(),
            r matches Some(handle) ==> handle < self@.live.len() && self@.outgoing[handle as int].len()
                > 0,
            r is None ==> forall|h: int|
                0 <= h < self@.outgoing.len() ==> (#[trigger] self@.outgoing[h]).len() == 0,
    {
        proof {
            use_type_invariant(self);
            lemma_first_ready(self@.outgoing, self@.cursor as int, self@.outgoing.len() as int);
            lemma_first_ready(self@.outgoing, 0, self@.cursor as int);
        }
        let n: usize = self.outgoing.len();
        let mut i: usize = self.cursor;
        while i < n
            invariant
                self.cursor <= i <= n,
                n == self.outgoing@.len(),
                self@.outgoing.len() == n,
                self@.live.len() == n,
                first_ready(self@.outgoing, self@.cursor as int, n as int) == first_ready(
                    self@.outgoing,
                    i as int,
                    n as int,
                ),
            decreases n - i,
        {
            assert(self@.outgoing[i as int] == self.outgoing@[i as int]@);
            if self.outgoing[i].len() > 0 {
                return Some(i as u64);
            }
            i += 1;
        }
        let mut j: usize = 0;
        while j < self.cursor
            invariant
                j <= self.cursor <= n,
                n == self.outgoing@.len(),
                self@.outgoing.len() == n,
                self@.live.len() == n,
                first_ready(self@.outgoing, self@.cursor as int, n as int) is None,
                first_ready(self@.outgoing, 0, self@.cursor as int) == first_ready(
                    self@.outgoing,
                    j as int,
                    self@.cursor as int,
                ),
            decreases self.cursor - j,
        {
            assert(self@.outgoing[j as int] == self.outgoing@[j as int]@);
            if self.outgoing[j].len() > 0 {
                return Some(j as u64);
            }
            j += 1;
        }
        None
    }

    /// Take the batch that connection `handle` submits to the socket out of
    /// its queue: its oldest datagrams, at most `max` of them.
    fn take_batch(&mut self, handle: u64, max: usize) -> (batch: Vec<Transmit>)
        requires
            handle < old(self)@.live.len(),
        ensures
            batch@ == old(self)@.batch(handle, max as nat),
            final(self)@ == (EndpointState {
                outgoing: old(self)@.outgoing.update(
                    handle as int,
                    old(self)@.outgoing[handle as int].skip(batch@.len() as int),
                ),
                ..old(self)@
            }),
            final(self)@.wf(),
    {
        proof {
            use_type_invariant(&*self);
        }
        let ghost before = self@;
        let ghost whole = before.outgoing[handle as int];
        let mut taken = EndpointDriver::new(0);
        std::mem::swap(self, &mut taken);
        let EndpointDriver { ids, live, outgoing, accept, accept_limit, cursor, acceptor } = taken;
        let mut outgoing = outgoing;
        let mut queue: VecDeque<Transmit> = VecDeque::new();
        std::mem::swap(&mut queue, &mut outgoing[handle as usize]);
        let mut batch: Vec<Transmit> = Vec::new();
        while batch.len() < max && queue.len() > 0
            invariant
                batch@.len() <= max,
                batch@.len() <= whole.len(),
                batch@ == whole.take(batch@.len() as int),
                queue@ == whole.skip(batch@.len() as int),
            decreases queue@.len(),
        {
            let ghost done = batch@.len() as int;
            match queue.pop_front() {
                Some(transmit) => {
                    batch.push(transmit);
                    assert(batch@ =~= whole.take(done + 1));
                    assert(queue@ =~= whole.skip(done + 1));
                },
                None => {},
            }
        }
        outgoing.set(handle as usize, queue);
        assert(queues_view(outgoing@) =~= before.outgoing.update(
            handle as int,
            whole.skip(batch@.len() as int),
        ));
        *self = EndpointDriver { ids, live, outgoing, accept, accept_limit, cursor, acceptor };
        batch
    }

    /// Put what the socket did not send of a batch back at the front of the
    /// queue of connection `handle`, in order, and pass the turn on if asked.
    fn requeue(&mut self, handle: u64, batch: Vec<Transmit>, sent: usize, pass_on: bool)
        requires
            handle < old(self)@.live.len(),
            sent <= batch@.len(),
        ensures
            final(self)@ == (EndpointState {
                outgoing: old(self)@.outgoing.update(
                    handle as int,
                    batch@.skip(sent as int) + old(self)@.outgoing[handle as int],
                ),
                cursor: if pass_on {
                    (handle + 1) as nat
                } else {
                    old(self)@.cursor
                },
                ..old(self)@
            }),
            final(self)@.wf(),
    {
        proof {
            use_type_invariant(&*self);
        }
        let ghost before = self@;
        let ghost tail = before.outgoing[handle as int];
        let ghost whole = batch@;
        let mut taken = EndpointDriver::new(0);
        std::mem::swap(self, &mut taken);
        let EndpointDriver { ids, live, outgoing, accept, accept_limit, cursor, acceptor } = taken;
        let mut outgoing = outgoing;
        let mut batch = batch;
        let mut queue: VecDeque<Transmit> = VecDeque::new();
        std::mem::swap(&mut queue, &mut outgoing[handle as usize]);
        while batch.len() > sent
            invariant
                sent <= batch@.len() <= whole.len(),
                batch@ == whole.take(batch@.len() as int),
                queue@ == whole.skip(batch@.len() as int) + tail,
            decreases batch@.len(),
        {
            let ghost left = batch@.len() as int;
            match batch.pop() {
                Some(transmit) => {
                    queue.push_front(transmit);
                    assert(batch@ =~= whole.take(left - 1));
                    assert(queue@ =~= whole.skip(left - 1) + tail);
                },
                None => {},
            }
        }
        outgoing.set(handle as usize, queue);
        assert(queues_view(outgoing@) =~= before.outgoing.update(
            handle as int,
            whole.skip(sent as int) + tail,
        ));
        let cursor: usize = if pass_on {
            handle as usize + 1
        } else {
            cursor
        };
        *self = EndpointDriver { ids, live, outgoing, accept, accept_limit, cursor, acceptor };
    }

    /// Start a submission to the socket: pick whose turn it is and take its
    /// batch of at most `max` datagrams out of its queue. `None` when nobody
    /// has anything to send.
    pub fn begin_send(&mut self, max: usize) -> (r: Option<(u64, Vec<Transmit>)>)
        ensures
            match old(self)@.next_ready() {
                Some(handle) => {
                    &&& r matches Some((h, batch))
                    &&& h == handle
                    &&& handle < old(self)@.live.len()
                    &&& batch@ == old(self)@.batch(handle, max as nat)
                    &&& final(self)@ == (EndpointState {
                        outgoing: old(self)@.outgoing.update(
                            handle as int,
                            old(self)@.outgoing[handle as int].skip(batch@.len() as int),
                        ),
                        ..old(self)@
                    })
                },
                None => {
                    &&& r is None
                    &&& final(self)@ == old(self)@
                    &&& forall|h: int|
                        0 <= h < old(self)@.outgoing.len() ==> (#[trigger] old(
                            self,
                        )@.outgoing[h]).len() == 0
                },
            },
            final(self)@.wf(),
    {
        proof {
            use_type_invariant(&*self);
        }
        match self.next_ready() {
            Some(handle) => {
                let batch = self.take_batch(handle, max);
                Some((handle, batch))
            },
            None => None,
        }
    }

    /// Finish a submission: `batch` is what `begin_send` took for connection
    /// `handle`, `result` is what the socket answered. The datagrams that were
    /// sent are gone; the others are first in the connection's queue again, in
    /// their order. After a send the turn passes to the next connection. The
    /// result says how the round goes on; `None` says that it simply goes on.
    /// An answer that claims more than the batch held counts as the whole
    /// batch.
    pub fn finish_send(
        &mut self,
        handle: u64,
        batch: Vec<Transmit>,
        result: Poll<Result<usize, SocketError>>,
    ) -> (r: Option<IoOutcome>)
        ensures
            (final(self)@, r) == old(self)@.finish_send(handle, batch@, result),
            final(self)@.wf(),
    {
        proof {
            use_type_invariant(&*self);
        }
        let known: bool = handle < self.live.len() as u64;
        match result {
            Poll::Ready(Ok(sent)) => {
                if known {
                    let sent: usize = if sent > batch.len() {
                        batch.len()
                    } else {
                        sent
                    };
                    self.requeue(handle, batch, sent, true);
                }
                None
            },
            Poll::Ready(Err(error)) => {
                if known {
                    self.requeue(handle, batch, 0, false);
                }
                Some(IoOutcome::Failed(error))
            },
            Poll::Pending => {
                if known {
                    self.requeue(handle, batch, 0, false);
                }
                Some(IoOutcome::Blocked)
            },
        }
    }

    /// One round of sending. Connections take turns, going round from where
    /// the last round stopped; each submits at most as many datagrams as the
    /// socket takes at once, one at least, and what the socket does not send
    /// stays first in its queue. The round ends when nobody has anything left
    /// to submit, when the socket would block or fails, or after
    /// `IO_LOOP_BOUND` submissions.
    ///
    /// With nothing to send the socket is not asked, nothing changes and the
    /// result is `Idle`. Otherwise the socket's answers decide, and the round
    /// follows them: there is a history of at most `IO_LOOP_BOUND`
    /// submissions, each handing the socket the batch of the connection whose
    /// turn it was, no larger than the socket's capabilities allow, and each
    /// finished as `finish_send` says; the endpoint afterwards is where the
    /// last one left it; and the result is `Blocked` or `Failed` as the last
    /// answer says, `Yield` when the cap was reached, were it with nothing
    /// left, and `Idle` when the round stopped short of the cap because
    /// nobody had anything left. Each queue afterwards is what is left of it
    /// after some of its oldest datagrams were sent, so nothing is lost,
    /// repeated or reordered.
    pub fn poll_transmit<S: Socket>(&mut self, socket: &S) -> (r: IoOutcome)
        ensures
            final(self)@.wf(),
            final(self)@.only_sent_since(old(self)@),
            old(self)@.next_ready() is None ==> r == IoOutcome::Idle && final(self)@ == old(self)@,
            r == IoOutcome::Idle ==> final(self)@.next_ready() is None && forall|h: int|
                0 <= h < final(self)@.outgoing.len() ==> (#[trigger] final(self)@.outgoing[h]).len()
                    == 0,
            r == IoOutcome::Yield ==> old(self)@.next_ready() is Some,
            exists|history: Seq<Submission>, caps: SocketCapabilities|
                {
                    &&& call_ensures(S::caps, (), caps)
                    &&& #[trigger] is_send_round(history, old(self)@, spec_batch_limit(caps))
                    &&& final(self)@ == send_round_end(history, old(self)@)
                    &&& r == send_round_outcome(history)
                },
    {
        proof {
            use_type_invariant(&*self);
            assert forall|h: int| 0 <= h < self@.outgoing.len() implies is_rest_of(
                #[trigger] self@.outgoing[h],
                self@.outgoing[h],
            ) by {
                assert(self@.outgoing[h] =~= self@.outgoing[h].skip(0));
            }
        }
        let caps = S::caps();
        let offered: usize = caps.max_gso_segments;
        let max: usize = if offered < 1 {
            1
        } else {
            offered
        };
        let ghost mut history: Seq<Submission> = Seq::empty();
        let mut calls: usize = 0;
        while calls < IO_LOOP_BOUND
            invariant
                calls <= IO_LOOP_BOUND,
                self@.wf(),
                self@.only_sent_since(old(self)@),
                calls == 0 ==> self@ == old(self)@,
                calls > 0 ==> old(self)@.next_ready() is Some,
                max as nat == spec_batch_limit(caps),
                call_ensures(S::caps, (), caps),
                history.len() == calls,
                is_send_round(history, old(self)@, max as nat),
                forall|i: int| 0 <= i < history.len() ==> (#[trigger] history[i]).goes_on(),
                self@ == send_round_end(history, old(self)@),
            decreases IO_LOOP_BOUND - calls,
        {
            let ghost round = self@;
            match self.begin_send(max) {
                Some((handle, batch)) => {
                    let ghost taken = self@;
                    let ghost held = batch@;
                    let result = socket.poll_send(&batch);
                    let ended = self.finish_send(handle, batch, result);
                    proof {
                        let submission = Submission { before: round, answer: result, after: self@ };
                        assert(taken == round.begun(handle, max as nat));
                        lemma_submission_only_sends(submission, max as nat);
                        lemma_only_sent_since(self@, round, old(self)@);
                        lemma_extend_round(history, old(self)@, max as nat, submission);
                        history = history.push(submission);
                    }
                    match ended {
                        Some(outcome) => {
                            return outcome;
                        },
                        None => {},
                    }
                },
                None => {
                    return IoOutcome::Idle;
                },
            }
            calls += 1;
        }
        IoOutcome::Yield
    }

    /// Forget the task suspended in `accept`, whose pending accept was
    /// dropped; another task's registration stays.
    pub fn cancel_accept(&mut self, task: u64)
        ensures
            final(self)@ == (EndpointState {
                acceptor: if old(self)@.acceptor == Some(task) {
                    None
                } else {
                    old(self)@.acceptor
                },
                ..old(self)@
            }),
            final(self)@.wf(),
    {
        proof {
            use_type_invariant(&*self);
        }
        match self.acceptor {
            Some(waiting) => {
                if waiting == task {
                    self.acceptor = None;
                }
            },
            None => {},
        }
    }

    /// Whether connection `handle` can be forgotten: it is drained, no
    /// identifier routes to it, and nothing of it waits for the socket.
    pub fn can_forget(&self, handle: u64) -> (r: bool)
        ensures
            r == (self@.is_retired(handle) && self@.outgoing[handle as int].len() == 0),
    {
        proof {
            use_type_invariant(self);
        }
        if handle < self.live.len() as u64 {
            proof {
                if !self.live@[handle as int] {
                    assert forall|i: int| 0 <= i < self@.ids.len() implies (#[trigger] self@.ids[i]).1
                        != handle by {
                        assert(self@.live[self@.ids[i].1 as int]);
                    }
                }
            }
            !self.live[handle as usize] && self.outgoing[handle as usize].len() == 0
        } else {
            false
        }
    }
}

/// How many datagrams of a batch of `held` an answer of the socket reports
/// as sent.
pub open spec fn spec_sent(result: Poll<Result<usize, SocketError>>, held: nat) -> nat {
    match result {
        Poll::Ready(Ok(sent)) => if sent > held {
            held
        } else {
            sent as nat
        },
        _ => 0,
    }
}

/// How many bytes of a buffer of `room` bytes a datagram reported with `len`
/// bytes fills: no more than the buffer holds.
pub open spec fn spec_filled(room: nat, len: usize) -> nat {
    if len as nat > room {
        room
    } else {
        len as nat
    }
}

/// Whether `datagram` is what the socket reported with `meta` in `buf`.
pub open spec fn is_received(datagram: Datagram, buf: Seq<u8>, meta: RecvMeta) -> bool {
    &&& datagram.remote == meta.addr
    &&& datagram.ecn == meta.ecn
    &&& datagram.dst_ip == meta.dst_ip
    &&& bytes_seq(datagram.contents) == buf.take(spec_filled(buf.len(), meta.len) as int)
}

/// How many datagrams to take out of the buffers when the socket reports
/// `count`: no more than there are buffers and descriptions.
pub open spec fn spec_taken(bufs: nat, meta: nat, count: usize) -> nat {
    let room = if bufs < meta {
        bufs
    } else {
        meta
    };
    if count as nat > room {
        room
    } else {
        count as nat
    }
}

/// Copy the first `count` received datagrams out of the receive buffers and
/// append them to `out`, in order.
pub fn collect_datagrams(
    bufs: &Vec<Vec<u8>>,
    meta: &Vec<RecvMeta>,
    count: usize,
    out: &mut Vec<Datagram>,
)
    ensures
        final(out)@.len() == old(out)@.len() + spec_taken(bufs@.len(), meta@.len(), count),
        final(out)@.take(old(out)@.len() as int) == old(out)@,
        forall|i: int|
            0 <= i < spec_taken(bufs@.len(), meta@.len(), count) ==> is_received(
                #[trigger] final(out)@[old(out)@.len() + i],
                bufs@[i]@,
                meta@[i],
            ),
{
    let room: usize = if bufs.len() < meta.len() {
        bufs.len()
    } else {
        meta.len()
    };
    let n: usize = if count > room {
        room
    } else {
        count
    };
    let mut i: usize = 0;
    while i < n
        invariant
            i <= n,
            n <= bufs@.len(),
            n <= meta@.len(),
            out@.len() == old(out)@.len() + i,
            out@.take(old(out)@.len() as int) == old(out)@,
            forall|k: int|
                0 <= k < i ==> is_received(
                    #[trigger] out@[old(out)@.len() + k],
                    bufs@[k]@,
                    meta@[k],
                ),
        decreases n - i,
    {
        let buf = &bufs[i];
        let m = meta[i];
        let len: usize = if m.len > buf.len() {
            buf.len()
        } else {
            m.len
        };
        let contents = bytes_copy_from_slice(vstd::slice::slice_subrange(buf.as_slice(), 0, len));
        let ghost before = out@;
        out.push(Datagram { remote: m.addr, ecn: m.ecn, dst_ip: m.dst_ip, contents });
        proof {
            assert(buf@.subrange(0, len as int) =~= buf@.take(len as int));
            assert(out@.take(old(out)@.len() as int) =~= before.take(old(out)@.len() as int));
            assert forall|k: int| 0 <= k < i + 1 implies is_received(
                #[trigger] out@[old(out)@.len() + k],
                bufs@[k]@,
                meta@[k],
            ) by {
                if k < i {
                    assert(out@[old(out)@.len() + k] == before[old(out)@.len() + k]);
                }
            }
        }
        i += 1;
    }
}

/// One call of the socket as a round of receiving saw it: how the socket left
/// the buffers, what it answered, and the datagrams that the round took out
/// of the buffers on that answer.
pub struct Reception {
    /// The receive buffers after the call
    pub bufs: Seq<Vec<u8>>,
    /// The descriptions after the call
    pub meta: Seq<RecvMeta>,
    /// What the socket answered
    pub answer: Poll<Result<usize, SocketError>>,
    /// The datagrams taken, in the order of the buffers
    pub taken: Seq<Datagram>,
}

impl Reception {
    /// Whether the round goes on after this call: the socket received.
    pub open spec fn goes_on(self) -> bool {
        self.answer is Ready && self.answer->Ready_0 is Ok
    }

    /// Whether what was taken is what the answer reports: on a count, the
    /// datagrams of the first buffers, as many as the count says and the
    /// buffers hold, each with its description; on anything else, nothing.
    pub open spec fn wf(self) -> bool {
        match self.answer {
            Poll::Ready(Ok(count)) => {
                &&& self.taken.len() == spec_taken(self.bufs.len(), self.meta.len(), count)
                &&& forall|i: int|
                    0 <= i < self.taken.len() ==> is_received(
                        #[trigger] self.taken[i],
                        self.bufs[i]@,
                        self.meta[i],
                    )
            },
            _ => self.taken.len() == 0,
        }
    }

    /// How a round ends whose last call was this one.
    pub open spec fn outcome(self) -> IoOutcome {
        match self.answer {
            Poll::Ready(Ok(_)) => IoOutcome::Yield,
            Poll::Ready(Err(error)) => IoOutcome::Failed(error),
            Poll::Pending => IoOutcome::Blocked,
        }
    }
}

/// The datagrams taken over the calls of a round, oldest first.
pub open spec fn all_taken(history: Seq<Reception>) -> Seq<Datagram>
    decreases history.len(),
{
    if history.len() == 0 {
        Seq::empty()
    } else {
        all_taken(history.drop_last()) + history.last().taken
    }
}

/// Whether `history` is a whole round of receiving: at least one call and at
/// most `IO_LOOP_BOUND`; every call but the last one received; and the last
/// one received only if it was call number `IO_LOOP_BOUND`.
pub open spec fn is_round(history: Seq<Reception>) -> bool {
    &&& 1 <= history.len() <= IO_LOOP_BOUND
    &&& forall|i: int| 0 <= i < history.len() ==> (#[trigger] history[i]).wf()
    &&& forall|i: int| 0 <= i < history.len() - 1 ==> (#[trigger] history[i]).goes_on()
    &&& history.last().goes_on() ==> history.len() == IO_LOOP_BOUND
}

/// Finish one call of a round of receiving: `answer` is what the socket
/// answered, `bufs` and `meta` are the buffers as it left them. On a count the
/// datagrams it reports are copied out of the buffers and appended to `out`,
/// and the round goes on, which `None` says. A socket that would block ends
/// the round with `Blocked`, a failure ends it with `Failed`, and neither
/// appends anything.
pub fn finish_receive(
    bufs: &Vec<Vec<u8>>,
    meta: &Vec<RecvMeta>,
    answer: Poll<Result<usize, SocketError>>,
    out: &mut Vec<Datagram>,
) -> (r: Option<IoOutcome>)
    ensures
        final(out)@.len() >= old(out)@.len(),
        final(out)@.take(old(out)@.len() as int) == old(out)@,
        (Reception {
            bufs: bufs@,
            meta: meta@,
            answer,
            taken: final(out)@.skip(old(out)@.len() as int),
        }).wf(),
        r == match answer {
            Poll::Ready(Ok(_)) => None,
            Poll::Ready(Err(error)) => Some(IoOutcome::Failed(error)),
            Poll::Pending => Some(IoOutcome::Blocked),
        },
{
    assert(out@.take(out@.len() as int) =~= out@);
    match answer {
        Poll::Ready(Ok(count)) => {
            collect_datagrams(bufs, meta, count, out);
            proof {
                let taken = out@.skip(old(out)@.len() as int);
                assert forall|i: int| 0 <= i < taken.len() implies is_received(
                    #[trigger] taken[i],
                    bufs@[i]@,
                    meta@[i],
                ) by {
                    assert(taken[i] == out@[old(out)@.len() + i]);
                }
            }
            None
        },
        Poll::Ready(Err(error)) => Some(IoOutcome::Failed(error)),
        Poll::Pending => Some(IoOutcome::Blocked),
    }
}

/// One round of receiving: ask the socket for datagrams until it would block
/// or fails, at most `IO_LOOP_BOUND` times, and append what came to `out`,
/// oldest first. The datagrams then go through the engine, which names the
/// connection identifier of each, and through `route`.
///
/// The socket's answers decide, and the round follows them: there is a
/// history of calls, a whole round, such that `out` grew by exactly the
/// datagrams that the socket reported over those calls, in order; the result
/// is what the last call says, `Blocked` where the socket would block,
/// `Failed` where it failed, and `Yield` where the cap was reached with the
/// socket still receiving, so that a deep backlog cannot hold the scheduler;
/// and the buffers are as the last call left them.
pub fn poll_receive<S: Socket>(
    socket: &S,
    bufs: &mut Vec<Vec<u8>>,
    meta: &mut Vec<RecvMeta>,
    out: &mut Vec<Datagram>,
) -> (r: IoOutcome)
    ensures
        final(out)@.len() >= old(out)@.len(),
        final(out)@.take(old(out)@.len() as int) == old(out)@,
        r != IoOutcome::Idle,
        exists|history: Seq<Reception>|
            {
                &&& #[trigger] is_round(history)
                &&& final(out)@ == old(out)@ + all_taken(history)
                &&& r == history.last().outcome()
                &&& history.last().bufs == final(bufs)@
                &&& history.last().meta == final(meta)@
            },
{
    let mut calls: usize = 0;
    let ghost mut history: Seq<Reception> = Seq::empty();
    assert(out@ =~= old(out)@ + all_taken(history));
    while calls < IO_LOOP_BOUND
        invariant
            calls <= IO_LOOP_BOUND,
            history.len() == calls,
            forall|i: int| 0 <= i < history.len() ==> (#[trigger] history[i]).wf(),
            forall|i: int| 0 <= i < history.len() ==> (#[trigger] history[i]).goes_on(),
            out@ == old(out)@ + all_taken(history),
            calls > 0 ==> history.last().bufs == bufs@ && history.last().meta == meta@,
        decreases IO_LOOP_BOUND - calls,
    {
        let answer = socket.poll_recv(bufs, meta);
        let ghost before = out@;
        let ended = finish_receive(bufs, meta, answer, out);
        proof {
            let call = Reception {
                bufs: bufs@,
                meta: meta@,
                answer,
                taken: out@.skip(before.len() as int),
            };
            let longer = history.push(call);
            assert(longer.drop_last() =~= history);
            assert(out@ =~= before + call.taken) by {
                assert(out@.take(before.len() as int) == before);
            }
            assert(out@ =~= old(out)@ + all_taken(longer));
            history = longer;
        }
        match ended {
            Some(outcome) => {
                assert(is_round(history));
                return outcome;
            },
            None => {},
        }
        calls += 1;
    }
    assert(is_round(history));
    IoOutcome::Yield
}

} // verus!
