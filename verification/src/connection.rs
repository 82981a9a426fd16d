//! The per-connection driver: what one scheduling turn feeds to the protocol
//! engine, whom the engine's events wake, and how a connection ends.
//!
//! The driver never calls the engine. The caller runs the turn: it asks the
//! driver what to hand to the engine next, hands it over, and brings back what
//! the engine emitted.

use crate::notifier::{Notifier, NotifierState};
use crate::buf::{bytes_copy_from_slice, bytes_seq};
use crate::platform::{Addr, EcnCodepoint, Ip, Transmit};
use crate::stream_id::{Dir, StreamId};
use crate::table::{distinct_keys, erase, lemma_erase, lemma_put, lookup, put, values_of, Table};
use crate::transport::Poll;
use crate::varint::VarInt;
use crate::IO_LOOP_BOUND;
use bytes::Bytes;
use std::collections::VecDeque;
use vstd::prelude::*;

verus! {

/// The maximum number of datagrams a connection hands to the endpoint in one
/// turn before it yields.
pub const MAX_TRANSMIT_DATAGRAMS: usize = 20;

/// Reasons why a connection might be lost.
#[derive(Clone, Copy, Debug, PartialEq, Eq, Structural)]
pub enum ConnectionError {
    /// The peer doesn't implement any supported version
    VersionMismatch,
    /// The peer violated the QUIC specification as understood by this implementation
    TransportError {
        /// The kind of violation
        code: VarInt,
    },
    /// The peer's QUIC stack aborted the connection automatically
    ConnectionClosed {
        /// The code the peer gave
        code: VarInt,
    },
    /// The peer closed the connection
    ApplicationClosed {
        /// The application's reason code
        code: VarInt,
    },
    /// The peer is unable to continue processing this connection, usually due to having restarted
    Reset,
    /// The peer has become unreachable
    TimedOut,
    /// The local application closed the connection
    LocallyClosed,
}

/// Where a connection stands, as the engine last reported it.
#[derive(Clone, Copy, Debug, PartialEq, Eq, Structural)]
pub enum Phase {
    /// The handshake is under way
    Handshaking,
    /// The handshake is confirmed
    Established,
    /// The connection is lost or closing; the engine still runs it down
    Draining,
    /// Nothing more will be sent or received
    Drained,
}

/// What the engine tells the application side.
#[derive(Clone, Copy, Debug, PartialEq, Eq, Structural)]
pub enum Event {
    /// The handshake is confirmed
    Connected,
    /// A stream has data or an error waiting to be read
    StreamReadable {
        /// Which stream
        id: StreamId,
    },
    /// A formerly write-blocked stream may take a write
    StreamWritable {
        /// Which stream
        id: StreamId,
    },
    /// The peer opened one or more streams
    StreamOpened {
        /// Of which directionality
        dir: Dir,
    },
    /// At least one more stream may be opened from this side
    StreamAvailable {
        /// Of which directionality
        dir: Dir,
    },
    /// The connection was lost
    ConnectionLost {
        /// Why
        reason: ConnectionError,
    },
}

/// Someone to resume.
#[derive(Clone, Copy, Debug, PartialEq, Eq, Structural)]
pub enum Wake {
    /// A task suspended in a stream operation or a milestone wait
    Task(u64),
    /// A subscriber of the close notifier, by its handle
    Closed(u64),
}

/// A datagram that the endpoint routed to this connection.
#[derive(Debug)]
pub struct Datagram {
    /// Who sent it
    pub remote: Addr,
    /// The congestion marking it arrived with
    pub ecn: Option<EcnCodepoint>,
    /// The local address it was sent to, where known
    pub dst_ip: Option<Ip>,
    /// The bytes, which only the engine reads
    pub contents: Bytes,
}

/// What the endpoint sends to a connection.
#[derive(Debug)]
pub enum ConnectionEvent {
    /// The endpoint is closing every connection
    Close {
        /// The application's reason code
        error_code: VarInt,
        /// The application's reason, free-form
        reason: Bytes,
    },
    /// Engine input routed by the endpoint
    Proto(Datagram),
}

/// What a connection tells the endpoint besides datagrams.
#[derive(Clone, Copy, Debug, PartialEq, Eq, Structural)]
pub enum EndpointNotice {
    /// The connection is drained and emits nothing more
    Drained,
    /// Stop routing this identifier to the connection
    RetireConnectionId(u64),
    /// Route this further identifier to the connection
    IssueConnectionId(u64),
}

/// What a connection sends to the endpoint.
#[derive(Debug)]
pub enum EndpointEvent {
    /// Bookkeeping for the identifier table
    Proto(EndpointNotice),
    /// A datagram to put on the wire
    Transmit(Transmit),
}

/// What to do with the timer after the engine named its next deadline.
#[derive(Clone, Copy, Debug, PartialEq, Eq, Structural)]
pub enum TimerAction {
    /// The timer is set as it should be
    Unchanged,
    /// Set the timer to this deadline
    Arm(u64),
    /// Cancel the timer
    Disarm,
}

/// How a turn ends.
#[derive(Clone, Copy, Debug, PartialEq, Eq, Structural)]
pub enum TurnOutcome {
    /// The connection is drained: the driver is done for good
    Retire,
    /// A cap stopped the turn with work left: run again soon
    Yield,
    /// Nothing is left to do until someone wakes the driver
    Park,
}

/// Where a turn stands: what the driver waits to hear from the caller.
#[derive(Clone, Copy, Debug, PartialEq, Eq, Structural)]
pub enum Stage {
    /// Inbound events go to the engine
    Feed,
    /// The engine is asked for its next deadline
    Deadline,
    /// A timer that is due is handled
    Timeout,
    /// The engine's events are dispatched
    Events,
    /// The engine's datagrams are queued for the endpoint
    Transmits,
    /// The engine is asked whether the connection is drained
    Drain,
    /// The turn is over
    Done,
}

/// What the caller is to do next with the engine.
#[derive(Debug)]
pub enum Action {
    /// Hand this event to the engine, then report `Fed`
    Feed(ConnectionEvent),
    /// Ask the engine for its next deadline and report it
    AskDeadline,
    /// Let the engine handle the timeout, then report `TimedOut`
    HandleTimeout,
    /// Ask the engine for its next event and report it
    PollEvent,
    /// Ask the engine for its next datagram and report it
    PollTransmit,
    /// Ask the engine whether the connection is drained and report it
    AskDrained,
    /// The turn is over, and this is how it ends
    End(TurnOutcome),
}

/// What the caller reports back to the driver.
#[derive(Debug)]
pub enum Report {
    /// A scheduling turn begins
    Start,
    /// The engine took the event in
    Fed,
    /// The engine's next deadline, if it has one
    Deadline(Option<u64>),
    /// The engine handled the timeout
    TimedOut,
    /// The engine's next event, if it has one
    Event(Option<Event>),
    /// The engine's next datagram, if it has one
    Transmit(Option<Transmit>),
    /// Whether the engine says the connection is drained
    Drained(bool),
}

/// The transport error code that stands for a failure of the endpoint's
/// socket: an internal error.
pub const SOCKET_FAILURE_CODE: u32 = 1;

/// The reason with which connections end when the endpoint's socket fails.
pub open spec fn spec_socket_failure() -> ConnectionError {
    ConnectionError::TransportError { code: VarInt::spec_from_u32(SOCKET_FAILURE_CODE) }
}

/// The tasks of a list as wake-ups.
pub open spec fn task_wakes(tasks: Seq<u64>) -> Seq<Wake> {
    Seq::new(tasks.len(), |i: int| Wake::Task(tasks[i]))
}

/// The handles of a list as wake-ups of close subscribers.
pub open spec fn closed_wakes(handles: Seq<u64>) -> Seq<Wake> {
    Seq::new(handles.len(), |i: int| Wake::Closed(handles[i]))
}

/// The task to wake for `key`: the one registered under it, or nobody.
pub open spec fn woken_for(waiters: Seq<(u64, u64)>, key: u64) -> Seq<u64> {
    match lookup(waiters, key) {
        Some(task) => seq![task],
        None => Seq::empty(),
    }
}

/// The wake-up of one task that may not be there.
pub open spec fn option_wakes(task: Option<u64>) -> Seq<Wake> {
    match task {
        Some(t) => seq![Wake::Task(t)],
        None => Seq::empty(),
    }
}

/// Who waits on a connection, and whether it has ended.
pub struct DriverState {
    /// Where the connection stands
    pub phase: Phase,
    /// The readers suspended on a stream, by the stream's raw identifier
    pub readers: Seq<(u64, u64)>,
    /// The writers suspended on a stream, by the stream's raw identifier
    pub writers: Seq<(u64, u64)>,
    /// The task waiting for the peer to open a unidirectional stream
    pub uni_acceptor: Option<u64>,
    /// The task waiting for the peer to open a bidirectional stream
    pub bi_acceptor: Option<u64>,
    /// The tasks waiting for the handshake to be confirmed
    pub connecting: Seq<u64>,
    /// The tasks waiting to open a unidirectional stream
    pub uni_opening: Seq<u64>,
    /// The tasks waiting to open a bidirectional stream
    pub bi_opening: Seq<u64>,
    /// The close notifier; its payload is why the connection ended
    pub closed: NotifierState<ConnectionError>,
}

impl DriverState {
    /// Why the connection ended, once it has.
    pub open spec fn error(self) -> Option<ConnectionError> {
        self.closed.payload
    }

    /// What holds of every driver's signalling state: once the connection has
    /// ended nobody is left suspended on it.
    pub open spec fn wf(self) -> bool {
        &&& distinct_keys(self.readers)
        &&& distinct_keys(self.writers)
        &&& self.closed.wf()
        &&& self.error() is Some ==> {
            &&& self.readers.len() == 0
            &&& self.writers.len() == 0
            &&& self.uni_acceptor is None
            &&& self.bi_acceptor is None
            &&& self.connecting.len() == 0
            &&& self.uni_opening.len() == 0
            &&& self.bi_opening.len() == 0
            &&& (self.phase == Phase::Draining || self.phase == Phase::Drained)
        }
    }

    /// A connection that has just been created.
    pub open spec fn initial() -> Self {
        DriverState {
            phase: Phase::Handshaking,
            readers: Seq::empty(),
            writers: Seq::empty(),
            uni_acceptor: None,
            bi_acceptor: None,
            connecting: Seq::empty(),
            uni_opening: Seq::empty(),
            bi_opening: Seq::empty(),
            closed: NotifierState::initial(),
        }
    }

    /// The same state in another phase.
    pub open spec fn in_phase(self, phase: Phase) -> Self {
        DriverState { phase, ..self }
    }

    /// The connection ends for `reason`, unless it ended before: the reason is
    /// recorded, the close notifier fires, and everyone suspended on the
    /// connection is woken: writers, readers, acceptors, those waiting for the
    /// handshake, those waiting to open a stream, and the close subscribers,
    /// in this order. A connection that had ended already keeps its first
    /// reason and wakes nobody.
    pub open spec fn terminate(self, reason: ConnectionError) -> (Self, Seq<Wake>) {
        if self.error() is Some {
            (self, Seq::empty())
        } else {
            (
                DriverState {
                    phase: Phase::Draining,
                    readers: Seq::empty(),
                    writers: Seq::empty(),
                    uni_acceptor: None,
                    bi_acceptor: None,
                    connecting: Seq::empty(),
                    uni_opening: Seq::empty(),
                    bi_opening: Seq::empty(),
                    closed: self.closed.fire(reason).0,
                },
                task_wakes(values_of(self.writers)) + task_wakes(values_of(self.readers))
                    + option_wakes(self.uni_acceptor) + option_wakes(self.bi_acceptor)
                    + task_wakes(self.connecting) + task_wakes(self.uni_opening) + task_wakes(
                    self.bi_opening,
                ) + closed_wakes(self.closed.fire(reason).1),
            )
        }
    }

    /// The engine reports the connection drained: it ends, as closed from this
    /// side unless a reason is on record, and is drained from now on.
    pub open spec fn drain(self) -> (Self, Seq<Wake>) {
        let ended = self.terminate(ConnectionError::LocallyClosed);
        (ended.0.in_phase(Phase::Drained), ended.1)
    }

    /// The state after one engine event, and whom the event wakes.
    pub open spec fn dispatch(self, event: Event) -> (Self, Seq<Wake>) {
        match event {
            Event::Connected => if self.phase == Phase::Handshaking {
                (
                    DriverState { phase: Phase::Established, connecting: Seq::empty(), ..self },
                    task_wakes(self.connecting),
                )
            } else {
                (self, Seq::empty())
            },
            Event::StreamReadable { id } => (
                DriverState { readers: erase(self.readers, id.0), ..self },
                task_wakes(woken_for(self.readers, id.0)),
            ),
            Event::StreamWritable { id } => (
                DriverState { writers: erase(self.writers, id.0), ..self },
                task_wakes(woken_for(self.writers, id.0)),
            ),
            Event::StreamOpened { dir } => match dir {
                Dir::Uni => (
                    DriverState { uni_acceptor: None, ..self },
                    option_wakes(self.uni_acceptor),
                ),
                Dir::Bi => (
                    DriverState { bi_acceptor: None, ..self },
                    option_wakes(self.bi_acceptor),
                ),
            },
            Event::StreamAvailable { dir } => match dir {
                Dir::Uni => (
                    DriverState { uni_opening: Seq::empty(), ..self },
                    task_wakes(self.uni_opening),
                ),
                Dir::Bi => (
                    DriverState { bi_opening: Seq::empty(), ..self },
                    task_wakes(self.bi_opening),
                ),
            },
            Event::ConnectionLost { reason } => self.terminate(reason),
        }
    }

    /// The state after a run of engine events, and everyone they woke, in
    /// order.
    pub open spec fn run(self, events: Seq<Event>) -> (Self, Seq<Wake>)
        decreases events.len(),
    {
        if events.len() == 0 {
            (self, Seq::empty())
        } else {
            let before = self.run(events.drop_last());
            let after = before.0.dispatch(events.last());
            (after.0, before.1 + after.1)
        }
    }

    /// The state after `task` asked to be resumed when `id` becomes readable.
    pub open spec fn with_reader(self, id: StreamId, task: u64) -> Self {
        DriverState { readers: put(self.readers, id.0, task), ..self }
    }

    /// The state after `task` asked to be resumed when `id` becomes writable.
    pub open spec fn with_writer(self, id: StreamId, task: u64) -> Self {
        DriverState { writers: put(self.writers, id.0, task), ..self }
    }

    /// The state after `task` asked to be resumed when the peer opens a stream
    /// of directionality `dir`.
    pub open spec fn with_acceptor(self, dir: Dir, task: Option<u64>) -> Self {
        match dir {
            Dir::Uni => DriverState { uni_acceptor: task, ..self },
            Dir::Bi => DriverState { bi_acceptor: task, ..self },
        }
    }

    /// The state after `task` asked to be resumed when the handshake is
    /// confirmed; a task is listed once.
    pub open spec fn with_connecting(self, task: u64) -> Self {
        DriverState { connecting: listed_once(self.connecting, task), ..self }
    }

    /// The state after `task` asked to be resumed when a stream of
    /// directionality `dir` may be opened; a task is listed once.
    pub open spec fn with_opening(self, dir: Dir, task: u64) -> Self {
        match dir {
            Dir::Uni => DriverState { uni_opening: listed_once(self.uni_opening, task), ..self },
            Dir::Bi => DriverState { bi_opening: listed_once(self.bi_opening, task), ..self },
        }
    }

    /// The state after `task` gave up waiting for the handshake and for
    /// streams to open.
    pub open spec fn without_waiting(self, task: u64) -> Self {
        DriverState {
            connecting: unlisted(self.connecting, task),
            uni_opening: unlisted(self.uni_opening, task),
            bi_opening: unlisted(self.bi_opening, task),
            ..self
        }
    }

    /// The same state with another close notifier.
    pub open spec fn with_closed(self, closed: NotifierState<ConnectionError>) -> Self {
        DriverState { closed, ..self }
    }
}

/// A list without `task`; the others keep their order.
pub open spec fn unlisted(list: Seq<u64>, task: u64) -> Seq<u64>
    decreases list.len(),
{
    if list.len() == 0 {
        list
    } else if list.last() == task {
        unlisted(list.drop_last(), task)
    } else {
        unlisted(list.drop_last(), task).push(list.last())
    }
}

/// A list with `task` in it: as it is if the task is listed, with the task at
/// the end if not.
pub open spec fn listed_once(list: Seq<u64>, task: u64) -> Seq<u64> {
    if list.contains(task) {
        list
    } else {
        list.push(task)
    }
}

/// Every engine event keeps the signalling state well formed.
pub proof fn lemma_dispatch_wf(s: DriverState, event: Event)
    requires
        s.wf(),
    ensures
        s.dispatch(event).0.wf(),
{
    match event {
        Event::StreamReadable { id } => {
            lemma_erase(s.readers, id.0);
        },
        Event::StreamWritable { id } => {
            lemma_erase(s.writers, id.0);
        },
        _ => {},
    }
}

/// Every run of engine events keeps the signalling state well formed.
pub proof fn lemma_run_wf(s: DriverState, events: Seq<Event>)
    requires
        s.wf(),
    ensures
        s.run(events).0.wf(),
    decreases events.len(),
{
    if events.len() > 0 {
        lemma_run_wf(s, events.drop_last());
        lemma_dispatch_wf(s.run(events.drop_last()).0, events.last());
    }
}

/// A run of events cut in two gives the same state and the same wake-ups as
/// the whole run.
pub proof fn lemma_run_split(s: DriverState, first: Seq<Event>, second: Seq<Event>)
    ensures
        s.run(first + second).0 == s.run(first).0.run(second).0,
        s.run(first + second).1 == s.run(first).1 + s.run(first).0.run(second).1,
    decreases second.len(),
{
    if second.len() == 0 {
        assert(first + second =~= first);
        assert(s.run(first).1 + Seq::<Wake>::empty() =~= s.run(first).1);
    } else {
        assert((first + second).drop_last() =~= first + second.drop_last());
        assert((first + second).last() == second.last());
        lemma_run_split(s, first, second.drop_last());
        let mid = s.run(first).0.run(second.drop_last());
        let step = mid.0.dispatch(second.last());
        assert((s.run(first).1 + mid.1) + step.1 =~= s.run(first).1 + (mid.1 + step.1));
    }
}

/// What several turns handled, one turn after the other.
pub open spec fn concat_turns<T>(turns: Seq<Seq<T>>) -> Seq<T>
    decreases turns.len(),
{
    if turns.len() == 0 {
        Seq::empty()
    } else {
        concat_turns(turns.drop_last()) + turns.last()
    }
}

impl DriverState {
    /// The state after several turns, each dispatching its own run of events,
    /// and everyone woken over all of them, in order.
    pub open spec fn run_turns(self, turns: Seq<Seq<Event>>) -> (Self, Seq<Wake>)
        decreases turns.len(),
    {
        if turns.len() == 0 {
            (self, Seq::empty())
        } else {
            let before = self.run_turns(turns.drop_last());
            let after = before.0.run(turns.last());
            (after.0, before.1 + after.1)
        }
    }
}

/// Independence of the number of turns: however a sequence of engine events is
/// cut into scheduling turns, the driver ends in the same state and wakes the
/// same tasks in the same order as when it dispatches the whole sequence in
/// one turn.
pub proof fn law_turn_count_independence(s: DriverState, turns: Seq<Seq<Event>>)
    ensures
        s.run_turns(turns) == s.run(concat_turns(turns)),
    decreases turns.len(),
{
    if turns.len() > 0 {
        law_turn_count_independence(s, turns.drop_last());
        lemma_run_split(s, concat_turns(turns.drop_last()), turns.last());
    }
}

impl DriverState {
    /// The driver beside a deterministic engine: the state of both after the
    /// engine took in `inputs` one by one, each followed by the dispatch of
    /// what the engine emitted for it, and everyone woken, in order.
    pub open spec fn absorb<E>(
        self,
        engine: spec_fn(E, ConnectionEvent) -> (E, Seq<Event>),
        core: E,
        inputs: Seq<ConnectionEvent>,
    ) -> (Self, E, Seq<Wake>)
        decreases inputs.len(),
    {
        if inputs.len() == 0 {
            (self, core, Seq::empty())
        } else {
            let before = self.absorb(engine, core, inputs.drop_last());
            let emitted = engine(before.1, inputs.last());
            let after = before.0.run(emitted.1);
            (after.0, emitted.0, before.2 + after.1)
        }
    }

    /// The same over several turns, each taking in its own inputs.
    pub open spec fn absorb_turns<E>(
        self,
        engine: spec_fn(E, ConnectionEvent) -> (E, Seq<Event>),
        core: E,
        turns: Seq<Seq<ConnectionEvent>>,
    ) -> (Self, E, Seq<Wake>)
        decreases turns.len(),
    {
        if turns.len() == 0 {
            (self, core, Seq::empty())
        } else {
            let before = self.absorb_turns(engine, core, turns.drop_last());
            let after = before.0.absorb(engine, before.1, turns.last());
            (after.0, after.1, before.2 + after.2)
        }
    }
}

/// Taking in inputs in two parts gives the same as taking them in at once.
pub proof fn lemma_absorb_split<E>(
    s: DriverState,
    engine: spec_fn(E, ConnectionEvent) -> (E, Seq<Event>),
    core: E,
    first: Seq<ConnectionEvent>,
    second: Seq<ConnectionEvent>,
)
    ensures
        ({
            let whole = s.absorb(engine, core, first + second);
            let head = s.absorb(engine, core, first);
            let tail = head.0.absorb(engine, head.1, second);
            whole == (tail.0, tail.1, head.2 + tail.2)
        }),
    decreases second.len(),
{
    let head = s.absorb(engine, core, first);
    if second.len() == 0 {
        assert(first + second =~= first);
        assert(head.2 + Seq::<Wake>::empty() =~= head.2);
    } else {
        assert((first + second).drop_last() =~= first + second.drop_last());
        assert((first + second).last() == second.last());
        lemma_absorb_split(s, engine, core, first, second.drop_last());
        let mid = head.0.absorb(engine, head.1, second.drop_last());
        let emitted = engine(mid.1, second.last());
        let after = mid.0.run(emitted.1);
        assert((head.2 + mid.2) + after.1 =~= head.2 + (mid.2 + after.1));
    }
}

/// Independence of the number of processing turns. For an engine that is a
/// function of its state and its input, and for inbound events delivered in
/// order: however the delivery is split across scheduling turns, the driver
/// and the engine end in the same state and the same tasks are woken in the
/// same order as when everything is processed in one turn.
pub proof fn law_processing_turn_count_independence<E>(
    s: DriverState,
    engine: spec_fn(E, ConnectionEvent) -> (E, Seq<Event>),
    core: E,
    turns: Seq<Seq<ConnectionEvent>>,
)
    ensures
        s.absorb_turns(engine, core, turns) == s.absorb(engine, core, concat_turns(turns)),
    decreases turns.len(),
{
    if turns.len() > 0 {
        law_processing_turn_count_independence(s, engine, core, turns.drop_last());
        lemma_absorb_split(s, engine, core, concat_turns(turns.drop_last()), turns.last());
    }
}

/// Two ways of cutting the same sequence of events into turns give the same
/// state and the same wake-ups.
pub proof fn law_same_events_same_wakes(
    s: DriverState,
    one: Seq<Seq<Event>>,
    other: Seq<Seq<Event>>,
)
    requires
        concat_turns(one) == concat_turns(other),
    ensures
        s.run_turns(one) == s.run_turns(other),
{
    law_turn_count_independence(s, one);
    law_turn_count_independence(s, other);
}

/// Everything a driver holds, as plain values.
pub struct DriverView {
    /// Who waits, and whether the connection has ended
    pub signals: DriverState,
    /// What the endpoint routed here and the engine has not seen, oldest first
    pub inbound: Seq<ConnectionEvent>,
    /// What the endpoint has not collected, oldest first
    pub outbox: Seq<EndpointEvent>,
    /// The reason code of the close asked for from this side, if one was
    pub closing: Option<VarInt>,
    /// The deadline the timer is set to
    pub deadline: Option<u64>,
    /// How many inbound events this turn handed to the engine
    pub fed: nat,
    /// How many datagrams this turn queued for the endpoint, capped
    pub transmitted: nat,
    /// Where the turn stands
    pub stage: Stage,
}

impl DriverView {
    /// A driver that has just been created.
    pub open spec fn initial() -> Self {
        DriverView {
            signals: DriverState::initial(),
            inbound: Seq::empty(),
            outbox: Seq::empty(),
            closing: None,
            deadline: None,
            fed: 0,
            transmitted: 0,
            stage: Stage::Done,
        }
    }

    /// The same driver with other signalling state.
    pub open spec fn with_signals(self, signals: DriverState) -> Self {
        DriverView { signals, ..self }
    }

    /// The same driver with one more event for the endpoint.
    pub open spec fn with_outgoing(self, event: EndpointEvent) -> Self {
        DriverView { outbox: self.outbox.push(event), ..self }
    }

    /// The same driver at another stage of its turn.
    pub open spec fn at_stage(self, stage: Stage) -> Self {
        DriverView { stage, ..self }
    }

    /// Whether this turn may still hand an inbound event to the engine.
    pub open spec fn may_feed(self) -> bool {
        self.fed < IO_LOOP_BOUND && self.inbound.len() > 0
    }

    /// The driver at the start of a turn: the turn's counters are zero.
    pub open spec fn begin_turn(self) -> Self {
        DriverView { fed: 0, transmitted: 0, ..self }
    }

    /// The driver after the oldest inbound event went to the engine. An
    /// endpoint-wide close counts as a close asked for from this side, unless
    /// one was asked for before.
    pub open spec fn feed(self) -> Self {
        DriverView {
            inbound: self.inbound.skip(1),
            closing: match self.inbound[0] {
                ConnectionEvent::Close { error_code, .. } => if self.closing is None {
                    Some(error_code)
                } else {
                    self.closing
                },
                ConnectionEvent::Proto(_) => self.closing,
            },
            fed: self.fed + 1,
            ..self
        }
    }

    /// The driver after `count` inbound events went to the engine in one
    /// turn, as far as the cap and the queue allow.
    pub open spec fn feed_many(self, count: nat) -> Self
        decreases count,
    {
        if count == 0 || !self.may_feed() {
            self
        } else {
            self.feed().feed_many((count - 1) as nat)
        }
    }

    /// How the turn ends.
    pub open spec fn outcome(self) -> TurnOutcome {
        if self.signals.phase == Phase::Drained {
            TurnOutcome::Retire
        } else if self.inbound.len() > 0 || self.transmitted >= MAX_TRANSMIT_DATAGRAMS {
            TurnOutcome::Yield
        } else {
            TurnOutcome::Park
        }
    }
}

impl DriverView {
    /// The driver after `turns` whole turns of feeding, and what the engine
    /// was handed over them, in order. Each turn starts afresh and feeds
    /// until the cap or the end of the queue stops it.
    pub open spec fn feed_turns(self, turns: nat) -> (Self, Seq<ConnectionEvent>)
        decreases turns,
    {
        if turns == 0 {
            (self, Seq::empty())
        } else {
            let before = self.feed_turns((turns - 1) as nat);
            let start = before.0.begin_turn();
            let end = start.feed_many(IO_LOOP_BOUND as nat);
            (end, before.1 + start.inbound.take(start.inbound.len() - end.inbound.len()))
        }
    }
}

/// Feeding takes the oldest events off the queue, as many as asked for unless
/// the cap of the turn or the end of the queue comes first, and touches
/// nothing but the queue, the turn's count and the close on record.
pub proof fn lemma_feed_many(v: DriverView, count: nat)
    requires
        v.fed <= IO_LOOP_BOUND,
    ensures
        ({
            let room = (IO_LOOP_BOUND - v.fed) as nat;
            let most = if count < room {
                count
            } else {
                room
            };
            let taken = if most < v.inbound.len() {
                most
            } else {
                v.inbound.len()
            };
            &&& v.feed_many(count).inbound == v.inbound.skip(taken as int)
            &&& v.feed_many(count).fed == v.fed + taken
            &&& v.feed_many(count).signals == v.signals
            &&& v.feed_many(count).outbox == v.outbox
        }),
    decreases count,
{
    if count > 0 && v.may_feed() {
        lemma_feed_many(v.feed(), (count - 1) as nat);
        let room = (IO_LOOP_BOUND - v.fed) as nat;
        let most = if count < room {
            count
        } else {
            room
        };
        let taken = if most < v.inbound.len() {
            most
        } else {
            v.inbound.len()
        };
        assert(v.inbound.skip(1).skip(taken - 1) =~= v.inbound.skip(taken as int));
    } else {
        assert(v.inbound.skip(0) =~= v.inbound);
    }
}

/// Arrival order, whatever the number of turns. Over any number of turns the
/// engine is handed the queued events oldest first, none twice and none
/// skipped: what was handed over, followed by what is still queued, is the
/// queue as it was. Each turn hands over `IO_LOOP_BOUND` events at most, and
/// after enough turns the whole queue has been handed over, the same
/// sequence however many turns it took.
pub proof fn law_feed_in_arrival_order(v: DriverView, turns: nat)
    ensures
        v.feed_turns(turns).1 + v.feed_turns(turns).0.inbound == v.inbound,
        v.feed_turns(turns).1.len() == if turns * IO_LOOP_BOUND >= v.inbound.len() {
            v.inbound.len()
        } else {
            (turns * IO_LOOP_BOUND) as nat
        },
        turns * IO_LOOP_BOUND >= v.inbound.len() ==> v.feed_turns(turns).1 == v.inbound,
        v.feed_turns(turns).0.signals == v.signals,
    decreases turns,
{
    if turns == 0 {
        assert(Seq::<ConnectionEvent>::empty() + v.inbound =~= v.inbound);
    } else {
        let before = v.feed_turns((turns - 1) as nat);
        law_feed_in_arrival_order(v, (turns - 1) as nat);
        let start = before.0.begin_turn();
        lemma_feed_many(start, IO_LOOP_BOUND as nat);
        let end = start.feed_many(IO_LOOP_BOUND as nat);
        let taken = start.inbound.len() - end.inbound.len();
        assert((before.1 + start.inbound.take(taken)) + start.inbound.skip(taken) =~= before.1
            + start.inbound);
        assert(turns * IO_LOOP_BOUND == (turns - 1) * IO_LOOP_BOUND + IO_LOOP_BOUND)
            by (nonlinear_arith);
        assert(before.1.len() + start.inbound.len() == v.inbound.len()) by {
            assert((before.1 + start.inbound).len() == v.inbound.len());
        }
        if turns * IO_LOOP_BOUND >= v.inbound.len() {
            assert(end.inbound.len() == 0);
            assert(v.feed_turns(turns).1 =~= v.feed_turns(turns).1 + end.inbound);
        }
    }
}

/// A drained connection has ended: this holds of a new connection and is kept
/// by every engine event and by the engine's report that it is drained.
pub proof fn law_drained_has_ended(s: DriverState, event: Event)
    requires
        s.phase == Phase::Drained ==> s.error() is Some,
    ensures
        DriverState::initial().phase != Phase::Drained,
        s.dispatch(event).0.phase == Phase::Drained ==> s.dispatch(event).0.error() is Some,
        s.drain().0.phase == Phase::Drained && s.drain().0.error() is Some,
{
}

/// The end is reported once, with its first reason: once a connection has
/// ended, neither a further loss nor the engine's report that it is drained
/// changes the reason or wakes anyone.
pub proof fn law_end_is_reported_once(s: DriverState, first: ConnectionError, later: ConnectionError)
    requires
        s.wf(),
        s.error() is None,
    ensures
        s.terminate(first).0.error() == Some(first),
        s.terminate(first).0.terminate(later) == (s.terminate(first).0, Seq::<Wake>::empty()),
        s.terminate(first).0.drain().0.error() == Some(first),
        s.terminate(first).0.drain().1 == Seq::<Wake>::empty(),
        s.terminate(first).0.wf(),
{
}

/// The end wakes everyone, once. When a connection ends, every task suspended
/// on it is among those woken: every writer, every reader, both acceptors,
/// everyone waiting for the handshake or to open a stream, and every close
/// subscriber; and as many are woken as were suspended.
pub proof fn law_end_wakes_everyone(s: DriverState, reason: ConnectionError)
    requires
        s.wf(),
        s.error() is None,
    ensures
        forall|i: int|
            0 <= i < s.writers.len() ==> s.terminate(reason).1.contains(
                Wake::Task((#[trigger] s.writers[i]).1),
            ),
        forall|i: int|
            0 <= i < s.readers.len() ==> s.terminate(reason).1.contains(
                Wake::Task((#[trigger] s.readers[i]).1),
            ),
        forall|i: int|
            0 <= i < s.connecting.len() ==> s.terminate(reason).1.contains(
                Wake::Task(#[trigger] s.connecting[i]),
            ),
        forall|i: int|
            0 <= i < s.uni_opening.len() ==> s.terminate(reason).1.contains(
                Wake::Task(#[trigger] s.uni_opening[i]),
            ),
        forall|i: int|
            0 <= i < s.bi_opening.len() ==> s.terminate(reason).1.contains(
                Wake::Task(#[trigger] s.bi_opening[i]),
            ),
        forall|i: int|
            0 <= i < s.closed.waiting.len() ==> s.terminate(reason).1.contains(
                Wake::Closed(#[trigger] s.closed.waiting[i]),
            ),
        s.uni_acceptor matches Some(task) ==> s.terminate(reason).1.contains(Wake::Task(task)),
        s.bi_acceptor matches Some(task) ==> s.terminate(reason).1.contains(Wake::Task(task)),
        s.terminate(reason).1.len() == s.writers.len() + s.readers.len() + s.connecting.len()
            + s.uni_opening.len() + s.bi_opening.len() + s.closed.waiting.len() + option_wakes(
            s.uni_acceptor,
        ).len() + option_wakes(s.bi_acceptor).len(),
{
    let woken = s.terminate(reason).1;
    let a = task_wakes(values_of(s.writers));
    let b = task_wakes(values_of(s.readers));
    let c = option_wakes(s.uni_acceptor);
    let d = option_wakes(s.bi_acceptor);
    let e = task_wakes(s.connecting);
    let f = task_wakes(s.uni_opening);
    let g = task_wakes(s.bi_opening);
    let h = closed_wakes(s.closed.waiting);
    assert(woken == a + b + c + d + e + f + g + h);
    assert forall|i: int| 0 <= i < s.writers.len() implies woken.contains(
        Wake::Task((#[trigger] s.writers[i]).1),
    ) by {
        assert(woken[i] == a[i]);
    }
    assert forall|i: int| 0 <= i < s.readers.len() implies woken.contains(
        Wake::Task((#[trigger] s.readers[i]).1),
    ) by {
        assert(woken[a.len() + i] == b[i]);
    }
    let upto_d = a.len() + b.len() + c.len() + d.len();
    assert forall|i: int| 0 <= i < s.connecting.len() implies woken.contains(
        Wake::Task(#[trigger] s.connecting[i]),
    ) by {
        assert(woken[upto_d + i] == e[i]);
    }
    assert forall|i: int| 0 <= i < s.uni_opening.len() implies woken.contains(
        Wake::Task(#[trigger] s.uni_opening[i]),
    ) by {
        assert(woken[upto_d + e.len() + i] == f[i]);
    }
    assert forall|i: int| 0 <= i < s.bi_opening.len() implies woken.contains(
        Wake::Task(#[trigger] s.bi_opening[i]),
    ) by {
        assert(woken[upto_d + e.len() + f.len() + i] == g[i]);
    }
    assert forall|i: int| 0 <= i < s.closed.waiting.len() implies woken.contains(
        Wake::Closed(#[trigger] s.closed.waiting[i]),
    ) by {
        assert(woken[upto_d + e.len() + f.len() + g.len() + i] == h[i]);
    }
    if s.uni_acceptor is Some {
        assert(woken[(a.len() + b.len()) as int] == c[0]);
    }
    if s.bi_acceptor is Some {
        assert(woken[(a.len() + b.len() + c.len()) as int] == d[0]);
    }
}

/// The datagram count of a turn after `count` more were queued: it stops at
/// the cap.
pub open spec fn spec_transmitted_after(transmitted: nat, count: nat) -> nat {
    if transmitted + count >= MAX_TRANSMIT_DATAGRAMS {
        MAX_TRANSMIT_DATAGRAMS as nat
    } else {
        transmitted + count
    }
}

impl DriverView {
    /// The driver after a datagram of the engine was queued for the endpoint
    /// and counted against the turn's cap.
    pub open spec fn pushed(self, transmit: Transmit) -> Self {
        DriverView {
            transmitted: spec_transmitted_after(
                self.transmitted,
                crate::platform::spec_datagram_count(
                    transmit.contents@.len(),
                    transmit.segment_size,
                ),
            ),
            ..self.with_outgoing(EndpointEvent::Transmit(transmit))
        }
    }

    /// The driver after the engine reported the connection drained, and whom
    /// that wakes: the connection ends if it had not, and the endpoint is
    /// told, once.
    pub open spec fn drained(self) -> (Self, Seq<Wake>) {
        if self.signals.phase == Phase::Drained {
            (self, Seq::empty())
        } else {
            (
                self.with_signals(self.signals.drain().0).with_outgoing(
                    EndpointEvent::Proto(EndpointNotice::Drained),
                ),
                self.signals.drain().1,
            )
        }
    }

    /// The driver after it took in what the caller reports, and whom that
    /// wakes. A turn begins at the feeding stage with its counters at zero.
    /// Every other report counts only at the stage that asked for it: the
    /// deadline is recorded; a handled timeout leads on to the events; an
    /// event is dispatched, and the end of the events leads on to the
    /// datagrams; a datagram is queued for the endpoint, and the end of the
    /// datagrams leads on to the question whether the connection is drained;
    /// the answer to that ends the turn. A report out of place changes
    /// nothing.
    pub open spec fn take_in(self, report: Report) -> (Self, Seq<Wake>) {
        match report {
            Report::Start => (self.begin_turn().at_stage(Stage::Feed), Seq::empty()),
            Report::Fed => (self, Seq::empty()),
            Report::Deadline(deadline) => if self.stage == Stage::Deadline {
                (DriverView { deadline, stage: Stage::Timeout, ..self }, Seq::empty())
            } else {
                (self, Seq::empty())
            },
            Report::TimedOut => if self.stage == Stage::Timeout {
                (self.at_stage(Stage::Events), Seq::empty())
            } else {
                (self, Seq::empty())
            },
            Report::Event(event) => if self.stage == Stage::Events {
                match event {
                    Some(e) => (
                        self.with_signals(self.signals.dispatch(e).0),
                        self.signals.dispatch(e).1,
                    ),
                    None => (self.at_stage(Stage::Transmits), Seq::empty()),
                }
            } else {
                (self, Seq::empty())
            },
            Report::Transmit(transmit) => if self.stage == Stage::Transmits {
                match transmit {
                    Some(t) => (self.pushed(t), Seq::empty()),
                    None => (self.at_stage(Stage::Drain), Seq::empty()),
                }
            } else {
                (self, Seq::empty())
            },
            Report::Drained(drained) => if self.stage == Stage::Drain {
                if drained {
                    (self.drained().0.at_stage(Stage::Done), self.drained().1)
                } else {
                    (self.at_stage(Stage::Done), Seq::empty())
                }
            } else {
                (self, Seq::empty())
            },
        }
    }

    /// What the caller is to do next, and the driver once it is asked. The
    /// stages follow each other in this order: inbound events go to the
    /// engine, oldest first, as far as the cap allows; the engine is asked
    /// for its deadline; a timer that is due at `now` is cleared and handled;
    /// the engine's events are dispatched; its datagrams are queued while the
    /// turn's cap allows; the engine is asked whether the connection is
    /// drained; and the turn ends.
    pub open spec fn next_action(self, now: u64) -> (Self, Action) {
        match self.stage {
            Stage::Feed => if self.may_feed() {
                (self.feed(), Action::Feed(self.inbound[0]))
            } else {
                (self.at_stage(Stage::Deadline), Action::AskDeadline)
            },
            Stage::Deadline => (self, Action::AskDeadline),
            Stage::Timeout => if self.deadline matches Some(at) && at <= now {
                (DriverView { deadline: None, ..self }, Action::HandleTimeout)
            } else {
                (self.at_stage(Stage::Events), Action::PollEvent)
            },
            Stage::Events => (self, Action::PollEvent),
            Stage::Transmits => if self.transmitted < MAX_TRANSMIT_DATAGRAMS {
                (self, Action::PollTransmit)
            } else {
                (self.at_stage(Stage::Drain), Action::AskDrained)
            },
            Stage::Drain => (self, Action::AskDrained),
            Stage::Done => (self, Action::End(self.outcome())),
        }
    }

    /// One step of a turn: the driver takes in the report and says what to do
    /// next.
    pub open spec fn advance(self, report: Report, now: u64) -> (Self, Action, Seq<Wake>) {
        let taken = self.take_in(report);
        let chosen = taken.0.next_action(now);
        (chosen.0, chosen.1, taken.1)
    }
}

/// The per-connection driver.
pub struct ConnectionDriver {
    phase: Phase,
    readers: Table,
    writers: Table,
    uni_acceptor: Option<u64>,
    bi_acceptor: Option<u64>,
    connecting: Vec<u64>,
    uni_opening: Vec<u64>,
    bi_opening: Vec<u64>,
    closed: Notifier<ConnectionError>,
    inbound: VecDeque<ConnectionEvent>,
    outbox: VecDeque<EndpointEvent>,
    closing: Option<VarInt>,
    deadline: Option<u64>,
    fed: usize,
    transmitted: usize,
    stage: Stage,
}

impl View for ConnectionDriver {
    type V = DriverView;

    closed spec fn view(&self) -> DriverView {
        DriverView {
            signals: DriverState {
                phase: self.phase,
                readers: self.readers@,
                writers: self.writers@,
                uni_acceptor: self.uni_acceptor,
                bi_acceptor: self.bi_acceptor,
                connecting: self.connecting@,
                uni_opening: self.uni_opening@,
                bi_opening: self.bi_opening@,
                closed: self.closed@,
            },
            inbound: self.inbound@,
            outbox: self.outbox@,
            closing: self.closing,
            deadline: self.deadline,
            fed: self.fed as nat,
            transmitted: self.transmitted as nat,
            stage: self.stage,
        }
    }
}

/// List `task` in `list` unless it is listed.
fn list_once(list: &mut Vec<u64>, task: u64)
    ensures
        final(list)@ == listed_once(old(list)@, task),
{
    let mut i: usize = 0;
    while i < list.len()
        invariant
            i <= list.len(),
            list@ == old(list)@,
            forall|k: int| 0 <= k < i ==> list@[k] != task,
        decreases list.len() - i,
    {
        if list[i] == task {
            return ;
        }
        i += 1;
    }
    list.push(task);
}

/// Take `task` off `list`.
fn unlist(list: &mut Vec<u64>, task: u64)
    ensures
        final(list)@ == unlisted(old(list)@, task),
        old(list)@.len() == 0 ==> final(list)@.len() == 0,
{
    let mut kept: Vec<u64> = Vec::new();
    let mut i: usize = 0;
    while i < list.len()
        invariant
            i <= list.len(),
            list@ == old(list)@,
            kept@ == unlisted(list@.take(i as int), task),
        decreases list.len() - i,
    {
        assert(list@.take(i + 1).drop_last() =~= list@.take(i as int));
        if list[i] != task {
            kept.push(list[i]);
        }
        i += 1;
    }
    assert(list@.take(i as int) =~= list@);
    *list = kept;
}

/// Append the wake-ups of `tasks` to `out`.
fn push_task_wakes(out: &mut Vec<Wake>, tasks: &Vec<u64>)
    ensures
        final(out)@ == old(out)@ + task_wakes(tasks@),
{
    let mut i: usize = 0;
    while i < tasks.len()
        invariant
            i <= tasks.len(),
            out@ == old(out)@ + task_wakes(tasks@).take(i as int),
        decreases tasks.len() - i,
    {
        out.push(Wake::Task(tasks[i]));
        assert(out@ =~= old(out)@ + task_wakes(tasks@).take(i + 1));
        i += 1;
    }
    assert(task_wakes(tasks@).take(i as int) =~= task_wakes(tasks@));
}

/// Append the wake-ups of the close subscribers `handles` to `out`.
fn push_closed_wakes(out: &mut Vec<Wake>, handles: &Vec<u64>)
    ensures
        final(out)@ == old(out)@ + closed_wakes(handles@),
{
    let mut i: usize = 0;
    while i < handles.len()
        invariant
            i <= handles.len(),
            out@ == old(out)@ + closed_wakes(handles@).take(i as int),
        decreases handles.len() - i,
    {
        out.push(Wake::Closed(handles[i]));
        assert(out@ =~= old(out)@ + closed_wakes(handles@).take(i + 1));
        i += 1;
    }
    assert(closed_wakes(handles@).take(i as int) =~= closed_wakes(handles@));
}

/// Append the wake-up of `task`, if there is one, to `out`.
fn push_option_wake(out: &mut Vec<Wake>, task: Option<u64>)
    ensures
        final(out)@ == old(out)@ + option_wakes(task),
{
    match task {
        Some(t) => {
            out.push(Wake::Task(t));
            assert(out@ =~= old(out)@ + option_wakes(task));
        },
        None => {
            assert(out@ =~= old(out)@ + option_wakes(task));
        },
    }
}

impl ConnectionDriver {
    #[verifier::type_invariant]
    spec fn inv(self) -> bool {
        &&& self@.signals.wf()
        &&& self.fed <= IO_LOOP_BOUND
        &&& self.transmitted <= MAX_TRANSMIT_DATAGRAMS
    }

    /// The driver of a connection that has just been created.
    pub fn new() -> (d: Self)
        ensures
            d@ == DriverView::initial(),
            d@.signals.wf(),
    {
        ConnectionDriver {
            phase: Phase::Handshaking,
            readers: Table::new(),
            writers: Table::new(),
            uni_acceptor: None,
            bi_acceptor: None,
            connecting: Vec::new(),
            uni_opening: Vec::new(),
            bi_opening: Vec::new(),
            closed: Notifier::new(),
            inbound: VecDeque::new(),
            outbox: VecDeque::new(),
            closing: None,
            deadline: None,
            fed: 0,
            transmitted: 0,
            stage: Stage::Done,
        }
    }

    /// Queue what the endpoint routed to this connection.
    pub fn enqueue(&mut self, event: ConnectionEvent)
        ensures
            final(self)@ == (DriverView {
                inbound: old(self)@.inbound.push(event),
                ..old(self)@
            }),
            final(self)@.signals.wf(),
    {
        proof {
            use_type_invariant(&*self);
        }
        let mut inbound: VecDeque<ConnectionEvent> = VecDeque::new();
        std::mem::swap(&mut inbound, &mut self.inbound);
        inbound.push_back(event);
        self.inbound = inbound;
    }

    /// Start a scheduling turn.
    pub fn begin_turn(&mut self)
        ensures
            final(self)@ == old(self)@.begin_turn(),
            final(self)@.signals.wf(),
    {
        proof {
            use_type_invariant(&*self);
        }
        self.fed = 0;
        self.transmitted = 0;
    }

    /// The next inbound event to hand to the engine in this turn: the oldest
    /// one queued, as long as the turn has fed fewer than `IO_LOOP_BOUND`.
    /// `None` ends the feeding for this turn.
    pub fn next_inbound(&mut self) -> (r: Option<ConnectionEvent>)
        ensures
            old(self)@.may_feed() ==> r == Some(old(self)@.inbound[0]) && final(self)@ == old(
                self,
            )@.feed(),
            !old(self)@.may_feed() ==> r is None && final(self)@ == old(self)@,
            final(self)@.signals.wf(),
    {
        proof {
            use_type_invariant(&*self);
        }
        if self.fed >= IO_LOOP_BOUND {
            return None;
        }
        let mut inbound: VecDeque<ConnectionEvent> = VecDeque::new();
        std::mem::swap(&mut inbound, &mut self.inbound);
        let next = inbound.pop_front();
        self.inbound = inbound;
        match next {
            Some(event) => {
                self.fed = self.fed + 1;
                match &event {
                    ConnectionEvent::Close { error_code, .. } => {
                        if self.closing.is_none() {
                            self.closing = Some(*error_code);
                        }
                    },
                    ConnectionEvent::Proto(_) => {},
                }
                assert(self.inbound@ =~= old(self)@.inbound.skip(1));
                Some(event)
            },
            None => None,
        }
    }

    /// The engine emitted `event`: update who waits and return whom to wake,
    /// in order.
    pub fn on_event(&mut self, event: Event) -> (wakes: Vec<Wake>)
        ensures
            final(self)@ == old(self)@.with_signals(old(self)@.signals.dispatch(event).0),
            wakes@ == old(self)@.signals.dispatch(event).1,
            final(self)@.signals.wf(),
    {
        proof {
            use_type_invariant(&*self);
            lemma_dispatch_wf(self@.signals, event);
        }
        let mut wakes: Vec<Wake> = Vec::new();
        match event {
            Event::Connected => {
                if self.phase == Phase::Handshaking {
                    let mut connecting: Vec<u64> = Vec::new();
                    std::mem::swap(&mut connecting, &mut self.connecting);
                    self.phase = Phase::Established;
                    push_task_wakes(&mut wakes, &connecting);
                    assert(wakes@ =~= task_wakes(connecting@));
                }
            },
            Event::StreamReadable { id } => {
                let mut readers = Table::new();
                std::mem::swap(&mut readers, &mut self.readers);
                let task = readers.remove(id.0);
                self.readers = readers;
                push_option_wake(&mut wakes, task);
                assert(wakes@ =~= task_wakes(woken_for(old(self)@.signals.readers, id.0)));
            },
            Event::StreamWritable { id } => {
                let mut writers = Table::new();
                std::mem::swap(&mut writers, &mut self.writers);
                let task = writers.remove(id.0);
                self.writers = writers;
                push_option_wake(&mut wakes, task);
                assert(wakes@ =~= task_wakes(woken_for(old(self)@.signals.writers, id.0)));
            },
            Event::StreamOpened { dir } => {
                match dir {
                    Dir::Uni => {
                        let task = self.uni_acceptor;
                        self.uni_acceptor = None;
                        push_option_wake(&mut wakes, task);
                    },
                    Dir::Bi => {
                        let task = self.bi_acceptor;
                        self.bi_acceptor = None;
                        push_option_wake(&mut wakes, task);
                    },
                }
                assert(wakes@ =~= old(self)@.signals.dispatch(event).1);
            },
            Event::StreamAvailable { dir } => {
                let mut opening: Vec<u64> = Vec::new();
                match dir {
                    Dir::Uni => {
                        std::mem::swap(&mut opening, &mut self.uni_opening);
                    },
                    Dir::Bi => {
                        std::mem::swap(&mut opening, &mut self.bi_opening);
                    },
                }
                push_task_wakes(&mut wakes, &opening);
                assert(wakes@ =~= task_wakes(opening@));
            },
            Event::ConnectionLost { reason } => {
                wakes = self.terminate(reason);
            },
        }
        wakes
    }

    /// End the connection for `reason` unless it has ended.
    fn terminate(&mut self, reason: ConnectionError) -> (wakes: Vec<Wake>)
        ensures
            final(self)@ == old(self)@.with_signals(old(self)@.signals.terminate(reason).0),
            wakes@ == old(self)@.signals.terminate(reason).1,
            final(self)@.signals.wf(),
    {
        proof {
            use_type_invariant(&*self);
        }
        let mut wakes: Vec<Wake> = Vec::new();
        if self.closed.is_fired() {
            return wakes;
        }
        self.phase = Phase::Draining;
        let mut writer_table = Table::new();
        std::mem::swap(&mut writer_table, &mut self.writers);
        let writers = writer_table.drain();
        let mut reader_table = Table::new();
        std::mem::swap(&mut reader_table, &mut self.readers);
        let readers = reader_table.drain();
        let uni = self.uni_acceptor;
        self.uni_acceptor = None;
        let bi = self.bi_acceptor;
        self.bi_acceptor = None;
        let mut connecting: Vec<u64> = Vec::new();
        std::mem::swap(&mut connecting, &mut self.connecting);
        let mut uni_opening: Vec<u64> = Vec::new();
        std::mem::swap(&mut uni_opening, &mut self.uni_opening);
        let mut bi_opening: Vec<u64> = Vec::new();
        std::mem::swap(&mut bi_opening, &mut self.bi_opening);
        let mut closed: Notifier<ConnectionError> = Notifier::new();
        std::mem::swap(&mut closed, &mut self.closed);
        let subscribers = closed.fire(reason);
        self.closed = closed;
        push_task_wakes(&mut wakes, &writers);
        push_task_wakes(&mut wakes, &readers);
        push_option_wake(&mut wakes, uni);
        push_option_wake(&mut wakes, bi);
        push_task_wakes(&mut wakes, &connecting);
        push_task_wakes(&mut wakes, &uni_opening);
        push_task_wakes(&mut wakes, &bi_opening);
        push_closed_wakes(&mut wakes, &subscribers);
        assert(wakes@ =~= old(self)@.signals.terminate(reason).1);
        wakes
    }

    /// The engine reports the connection drained. The connection ends if it
    /// had not, the endpoint is told once, and the driver retires at the end
    /// of the turn.
    pub fn on_drained(&mut self) -> (wakes: Vec<Wake>)
        ensures
            (final(self)@, wakes@) == old(self)@.drained(),
            final(self)@.signals.wf(),
    {
        proof {
            use_type_invariant(&*self);
        }
        if self.phase == Phase::Drained {
            return Vec::new();
        }
        let wakes = self.terminate(ConnectionError::LocallyClosed);
        self.phase = Phase::Drained;
        let mut outbox: VecDeque<EndpointEvent> = VecDeque::new();
        std::mem::swap(&mut outbox, &mut self.outbox);
        outbox.push_back(EndpointEvent::Proto(EndpointNotice::Drained));
        self.outbox = outbox;
        wakes
    }

    /// Ask for the connection to be closed with a reason code and a free-form
    /// reason. The first request on a live connection is recorded and handed
    /// back as the event to forward to the engine, which then runs the
    /// connection down; the driver goes on until the engine reports it
    /// drained. A later request, or one on a connection that has ended,
    /// does nothing.
    pub fn close(&mut self, error_code: VarInt, reason: &[u8]) -> (r: Option<ConnectionEvent>)
        ensures
            old(self)@.closing is None && old(self)@.signals.error() is None ==> {
                &&& final(self)@ == (DriverView { closing: Some(error_code), ..old(self)@ })
                &&& r matches Some(ConnectionEvent::Close { error_code: code, reason: why })
                &&& code == error_code
                &&& bytes_seq(why) == reason@
            },
            !(old(self)@.closing is None && old(self)@.signals.error() is None) ==> r is None
                && final(self)@ == old(self)@,
            final(self)@.signals.wf(),
    {
        proof {
            use_type_invariant(&*self);
        }
        if self.closing.is_some() || self.closed.is_fired() {
            return None;
        }
        self.closing = Some(error_code);
        Some(ConnectionEvent::Close { error_code, reason: bytes_copy_from_slice(reason) })
    }

    /// The engine named its next deadline: say what to do with the timer.
    pub fn set_deadline(&mut self, deadline: Option<u64>) -> (action: TimerAction)
        ensures
            final(self)@ == (DriverView { deadline, ..old(self)@ }),
            action == if deadline == old(self)@.deadline {
                TimerAction::Unchanged
            } else {
                match deadline {
                    Some(at) => TimerAction::Arm(at),
                    None => TimerAction::Disarm,
                }
            },
            final(self)@.signals.wf(),
    {
        proof {
            use_type_invariant(&*self);
        }
        let same: bool = match (deadline, self.deadline) {
            (Some(a), Some(b)) => a == b,
            (None, None) => true,
            _ => false,
        };
        self.deadline = deadline;
        if same {
            TimerAction::Unchanged
        } else {
            match deadline {
                Some(at) => TimerAction::Arm(at),
                None => TimerAction::Disarm,
            }
        }
    }

    /// Whether the timer is due at `now`. A due timer is cleared; the caller
    /// then lets the engine handle the timeout.
    pub fn timer_fired(&mut self, now: u64) -> (due: bool)
        ensures
            due == (old(self)@.deadline matches Some(at) && at <= now),
            final(self)@ == (DriverView {
                deadline: if due {
                    None
                } else {
                    old(self)@.deadline
                },
                ..old(self)@
            }),
            final(self)@.signals.wf(),
    {
        proof {
            use_type_invariant(&*self);
        }
        match self.deadline {
            Some(at) => {
                if at <= now {
                    self.deadline = None;
                    true
                } else {
                    false
                }
            },
            None => false,
        }
    }

    /// Whether this turn may still take a datagram from the engine.
    pub fn may_transmit(&self) -> (ok: bool)
        ensures
            ok == (self@.transmitted < MAX_TRANSMIT_DATAGRAMS),
    {
        self.transmitted < MAX_TRANSMIT_DATAGRAMS
    }

    /// Queue a datagram of the engine for the endpoint and count what it puts
    /// on the wire against the turn's cap. Returns whether the turn may take
    /// another one.
    pub fn push_transmit(&mut self, transmit: Transmit) -> (more: bool)
        ensures
            final(self)@ == old(self)@.pushed(transmit),
            more == (final(self)@.transmitted < MAX_TRANSMIT_DATAGRAMS),
            final(self)@.signals.wf(),
    {
        proof {
            use_type_invariant(&*self);
        }
        let count: usize = transmit.datagram_count();
        if count >= MAX_TRANSMIT_DATAGRAMS - self.transmitted {
            self.transmitted = MAX_TRANSMIT_DATAGRAMS;
        } else {
            self.transmitted = self.transmitted + count;
        }
        let mut outbox: VecDeque<EndpointEvent> = VecDeque::new();
        std::mem::swap(&mut outbox, &mut self.outbox);
        outbox.push_back(EndpointEvent::Transmit(transmit));
        self.outbox = outbox;
        self.transmitted < MAX_TRANSMIT_DATAGRAMS
    }

    /// Queue a notice about this connection's identifiers for the endpoint.
    pub fn notify_endpoint(&mut self, notice: EndpointNotice)
        ensures
            final(self)@ == old(self)@.with_outgoing(EndpointEvent::Proto(notice)),
            final(self)@.signals.wf(),
    {
        proof {
            use_type_invariant(&*self);
        }
        let mut outbox: VecDeque<EndpointEvent> = VecDeque::new();
        std::mem::swap(&mut outbox, &mut self.outbox);
        outbox.push_back(EndpointEvent::Proto(notice));
        self.outbox = outbox;
    }

    /// The oldest event that the endpoint has not collected.
    pub fn pop_endpoint_event(&mut self) -> (r: Option<EndpointEvent>)
        ensures
            old(self)@.outbox.len() > 0 ==> r == Some(old(self)@.outbox[0]) && final(self)@ == (
            DriverView { outbox: old(self)@.outbox.skip(1), ..old(self)@ }),
            old(self)@.outbox.len() == 0 ==> r is None && final(self)@ == old(self)@,
            final(self)@.signals.wf(),
    {
        proof {
            use_type_invariant(&*self);
        }
        let mut outbox: VecDeque<EndpointEvent> = VecDeque::new();
        std::mem::swap(&mut outbox, &mut self.outbox);
        let r = outbox.pop_front();
        self.outbox = outbox;
        assert(r is Some ==> self.outbox@ =~= old(self)@.outbox.skip(1));
        r
    }

    /// How the turn ends: the driver retires once the connection is drained,
    /// runs again soon where a cap stopped it with work left, and parks
    /// otherwise.
    pub fn end_turn(&self) -> (outcome: TurnOutcome)
        ensures
            outcome == self@.outcome(),
    {
        if self.phase == Phase::Drained {
            TurnOutcome::Retire
        } else if self.inbound.len() > 0 || self.transmitted >= MAX_TRANSMIT_DATAGRAMS {
            TurnOutcome::Yield
        } else {
            TurnOutcome::Park
        }
    }

    /// Suspend `task` until stream `id` becomes readable. On a connection that
    /// has ended nothing is registered and the reason comes back.
    pub fn register_reader(&mut self, id: StreamId, task: u64) -> (r: Result<(), ConnectionError>)
        ensures
            match old(self)@.signals.error() {
                Some(reason) => r == Err::<(), ConnectionError>(reason) && final(self)@ == old(
                    self,
                )@,
                None => r is Ok && final(self)@ == old(self)@.with_signals(
                    old(self)@.signals.with_reader(id, task),
                ),
            },
            final(self)@.signals.wf(),
    {
        proof {
            use_type_invariant(&*self);
            lemma_put(self@.signals.readers, id.0, task);
        }
        match self.closed.payload() {
            Some(reason) => Err(reason),
            None => {
                let mut readers = Table::new();
                std::mem::swap(&mut readers, &mut self.readers);
                readers.insert(id.0, task);
                self.readers = readers;
                Ok(())
            },
        }
    }

    /// Suspend `task` until stream `id` becomes writable. On a connection that
    /// has ended nothing is registered and the reason comes back.
    pub fn register_writer(&mut self, id: StreamId, task: u64) -> (r: Result<(), ConnectionError>)
        ensures
            match old(self)@.signals.error() {
                Some(reason) => r == Err::<(), ConnectionError>(reason) && final(self)@ == old(
                    self,
                )@,
                None => r is Ok && final(self)@ == old(self)@.with_signals(
                    old(self)@.signals.with_writer(id, task),
                ),
            },
            final(self)@.signals.wf(),
    {
        proof {
            use_type_invariant(&*self);
            lemma_put(self@.signals.writers, id.0, task);
        }
        match self.closed.payload() {
            Some(reason) => Err(reason),
            None => {
                let mut writers = Table::new();
                std::mem::swap(&mut writers, &mut self.writers);
                writers.insert(id.0, task);
                self.writers = writers;
                Ok(())
            },
        }
    }

    /// Accept a stream of directionality `dir` that the peer opened, given
    /// what the engine answered when asked for one. On a connection that has
    /// ended the reason comes back. A stream the engine had is returned. With
    /// none at hand `task` is registered, in place of whoever waited before,
    /// to be woken when the peer opens one, and the call is pending.
    pub fn poll_accept_stream(&mut self, dir: Dir, task: u64, answer: Option<StreamId>) -> (r: Poll<
        Result<StreamId, ConnectionError>,
    >)
        ensures
            r == match old(self)@.signals.error() {
                Some(reason) => Poll::Ready(Err(reason)),
                None => match answer {
                    Some(id) => Poll::Ready(Ok(id)),
                    None => Poll::Pending,
                },
            },
            r is Pending ==> final(self)@ == old(self)@.with_signals(
                old(self)@.signals.with_acceptor(dir, Some(task)),
            ),
            !(r is Pending) ==> final(self)@ == old(self)@,
            final(self)@.signals.wf(),
    {
        proof {
            use_type_invariant(&*self);
        }
        match self.closed.payload() {
            Some(reason) => Poll::Ready(Err(reason)),
            None => match answer {
                Some(id) => Poll::Ready(Ok(id)),
                None => {
                    match dir {
                        Dir::Uni => {
                            self.uni_acceptor = Some(task);
                        },
                        Dir::Bi => {
                            self.bi_acceptor = Some(task);
                        },
                    }
                    Poll::Pending
                },
            },
        }
    }

    /// Open a stream of directionality `dir` from this side, given what the
    /// engine answered when asked for one. On a connection that has ended the
    /// reason comes back. A stream the engine opened is returned. While the
    /// peer's limit is reached `task` is listed, once, to be woken when a
    /// stream becomes available, and the call is pending.
    pub fn poll_open(&mut self, dir: Dir, task: u64, answer: Option<StreamId>) -> (r: Poll<
        Result<StreamId, ConnectionError>,
    >)
        ensures
            r == match old(self)@.signals.error() {
                Some(reason) => Poll::Ready(Err(reason)),
                None => match answer {
                    Some(id) => Poll::Ready(Ok(id)),
                    None => Poll::Pending,
                },
            },
            r is Pending ==> final(self)@ == old(self)@.with_signals(
                old(self)@.signals.with_opening(dir, task),
            ),
            !(r is Pending) ==> final(self)@ == old(self)@,
            final(self)@.signals.wf(),
    {
        proof {
            use_type_invariant(&*self);
        }
        match self.closed.payload() {
            Some(reason) => Poll::Ready(Err(reason)),
            None => match answer {
                Some(id) => Poll::Ready(Ok(id)),
                None => {
                    let mut opening: Vec<u64> = Vec::new();
                    match dir {
                        Dir::Uni => {
                            std::mem::swap(&mut opening, &mut self.uni_opening);
                            list_once(&mut opening, task);
                            self.uni_opening = opening;
                        },
                        Dir::Bi => {
                            std::mem::swap(&mut opening, &mut self.bi_opening);
                            list_once(&mut opening, task);
                            self.bi_opening = opening;
                        },
                    }
                    Poll::Pending
                },
            },
        }
    }

    /// Wait for the handshake to be confirmed. Ready with the reason on a
    /// connection that has ended, ready at once when the handshake is behind,
    /// and pending, with `task` listed to be woken, while it is under way.
    pub fn wait_connected(&mut self, task: u64) -> (r: Poll<Result<(), ConnectionError>>)
        ensures
            match old(self)@.signals.error() {
                Some(reason) => r == Poll::Ready(Err::<(), ConnectionError>(reason)) && final(self)@ == old(self)@,
                None => if old(self)@.signals.phase == Phase::Handshaking {
                    r == Poll::<Result<(), ConnectionError>>::Pending && final(self)@ == old(
                        self,
                    )@.with_signals(old(self)@.signals.with_connecting(task))
                } else {
                    r == Poll::Ready(Ok::<(), ConnectionError>(())) && final(self)@ == old(self)@
                },
            },
            final(self)@.signals.wf(),
    {
        proof {
            use_type_invariant(&*self);
        }
        match self.closed.payload() {
            Some(reason) => Poll::Ready(Err(reason)),
            None => {
                if self.phase == Phase::Handshaking {
                    let mut connecting: Vec<u64> = Vec::new();
                    std::mem::swap(&mut connecting, &mut self.connecting);
                    list_once(&mut connecting, task);
                    self.connecting = connecting;
                    Poll::Pending
                } else {
                    Poll::Ready(Ok(()))
                }
            },
        }
    }

    /// The connection is lost for a `reason` that the engine did not report,
    /// such as the failure of the endpoint's socket: it ends, unless it has
    /// ended, and everyone suspended on it is returned to be woken.
    pub fn lose(&mut self, reason: ConnectionError) -> (wakes: Vec<Wake>)
        ensures
            final(self)@ == old(self)@.with_signals(old(self)@.signals.terminate(reason).0),
            wakes@ == old(self)@.signals.terminate(reason).1,
            final(self)@.signals.wf(),
    {
        self.terminate(reason)
    }

    /// The endpoint's socket failed, which ends every connection of the
    /// endpoint: this one ends as by a transport error, unless it has ended,
    /// and everyone suspended on it is returned to be woken.
    pub fn on_socket_failure(&mut self) -> (wakes: Vec<Wake>)
        ensures
            final(self)@ == old(self)@.with_signals(
                old(self)@.signals.terminate(spec_socket_failure()).0,
            ),
            wakes@ == old(self)@.signals.terminate(spec_socket_failure()).1,
            final(self)@.signals.wf(),
    {
        self.terminate(ConnectionError::TransportError { code: VarInt::from_u32(SOCKET_FAILURE_CODE) })
    }

    /// Take in what the caller reports.
    fn take_in(&mut self, report: Report) -> (wakes: Vec<Wake>)
        ensures
            (final(self)@, wakes@) == old(self)@.take_in(report),
            final(self)@.signals.wf(),
    {
        proof {
            use_type_invariant(&*self);
        }
        let mut wakes: Vec<Wake> = Vec::new();
        match report {
            Report::Start => {
                self.begin_turn();
                self.stage = Stage::Feed;
            },
            Report::Fed => {},
            Report::Deadline(deadline) => {
                if self.stage == Stage::Deadline {
                    self.deadline = deadline;
                    self.stage = Stage::Timeout;
                }
            },
            Report::TimedOut => {
                if self.stage == Stage::Timeout {
                    self.stage = Stage::Events;
                }
            },
            Report::Event(event) => {
                if self.stage == Stage::Events {
                    match event {
                        Some(e) => {
                            wakes = self.on_event(e);
                        },
                        None => {
                            self.stage = Stage::Transmits;
                        },
                    }
                }
            },
            Report::Transmit(transmit) => {
                if self.stage == Stage::Transmits {
                    match transmit {
                        Some(t) => {
                            let _ = self.push_transmit(t);
                        },
                        None => {
                            self.stage = Stage::Drain;
                        },
                    }
                }
            },
            Report::Drained(drained) => {
                if self.stage == Stage::Drain {
                    if drained {
                        wakes = self.on_drained();
                    }
                    self.stage = Stage::Done;
                }
            },
        }
        wakes
    }

    /// Say what the caller is to do next.
    fn next_action(&mut self, now: u64) -> (action: Action)
        ensures
            (final(self)@, action) == old(self)@.next_action(now),
            final(self)@.signals.wf(),
    {
        proof {
            use_type_invariant(&*self);
        }
        match self.stage {
            Stage::Feed => match self.next_inbound() {
                Some(event) => Action::Feed(event),
                None => {
                    self.stage = Stage::Deadline;
                    Action::AskDeadline
                },
            },
            Stage::Deadline => Action::AskDeadline,
            Stage::Timeout => {
                if self.timer_fired(now) {
                    Action::HandleTimeout
                } else {
                    self.stage = Stage::Events;
                    Action::PollEvent
                }
            },
            Stage::Events => Action::PollEvent,
            Stage::Transmits => {
                if self.may_transmit() {
                    Action::PollTransmit
                } else {
                    self.stage = Stage::Drain;
                    Action::AskDrained
                }
            },
            Stage::Drain => Action::AskDrained,
            Stage::Done => Action::End(self.end_turn()),
        }
    }

    /// One step of a scheduling turn: take in what the caller reports and say
    /// what it is to do next with the engine, and whom to wake. A turn begins
    /// with the report `Start` and ends with the action `End`; in between the
    /// caller does what it is told and reports the engine's answer. The
    /// order of a turn is the driver's: inbound events first, then the
    /// deadline and a timer that is due, then the engine's events, then its
    /// datagrams, then the question whether the connection is drained.
    pub fn advance(&mut self, report: Report, now: u64) -> (r: (Action, Vec<Wake>))
        ensures
            (final(self)@, r.0, r.1@) == old(self)@.advance(report, now),
            final(self)@.signals.wf(),
    {
        let wakes = self.take_in(report);
        let action = self.next_action(now);
        (action, wakes)
    }

    /// Where the turn stands.
    pub fn stage(&self) -> (stage: Stage)
        ensures
            stage == self@.stage,
    {
        self.stage
    }

    /// The deadline the timer is set to.
    pub fn deadline(&self) -> (deadline: Option<u64>)
        ensures
            deadline == self@.deadline,
    {
        self.deadline
    }

    /// Forget `task` where it waits for the handshake or for a stream to
    /// open: its pending operation was dropped.
    pub fn cancel_waiting(&mut self, task: u64)
        ensures
            final(self)@ == old(self)@.with_signals(old(self)@.signals.without_waiting(task)),
            final(self)@.signals.wf(),
    {
        proof {
            use_type_invariant(&*self);
        }
        let mut list: Vec<u64> = Vec::new();
        std::mem::swap(&mut list, &mut self.connecting);
        unlist(&mut list, task);
        self.connecting = list;
        let mut list: Vec<u64> = Vec::new();
        std::mem::swap(&mut list, &mut self.uni_opening);
        unlist(&mut list, task);
        self.uni_opening = list;
        let mut list: Vec<u64> = Vec::new();
        std::mem::swap(&mut list, &mut self.bi_opening);
        unlist(&mut list, task);
        self.bi_opening = list;
    }

    /// Forget the task waiting for the peer to open a stream of
    /// directionality `dir`.
    pub fn cancel_acceptor(&mut self, dir: Dir)
        ensures
            final(self)@ == old(self)@.with_signals(old(self)@.signals.with_acceptor(dir, None)),
            final(self)@.signals.wf(),
    {
        proof {
            use_type_invariant(&*self);
        }
        match dir {
            Dir::Uni => {
                self.uni_acceptor = None;
            },
            Dir::Bi => {
                self.bi_acceptor = None;
            },
        }
    }

    /// Forget the reader suspended on stream `id`, if there is one. The stream
    /// and the connection are not affected.
    pub fn cancel_reader(&mut self, id: StreamId)
        ensures
            final(self)@ == old(self)@.with_signals(
                (DriverState {
                    readers: erase(old(self)@.signals.readers, id.0),
                    ..old(self)@.signals
                }),
            ),
            final(self)@.signals.wf(),
    {
        proof {
            use_type_invariant(&*self);
            lemma_erase(self@.signals.readers, id.0);
        }
        let mut readers = Table::new();
        std::mem::swap(&mut readers, &mut self.readers);
        let _ = readers.remove(id.0);
        self.readers = readers;
    }

    /// Forget the writer suspended on stream `id`, if there is one. The stream
    /// and the connection are not affected.
    pub fn cancel_writer(&mut self, id: StreamId)
        ensures
            final(self)@ == old(self)@.with_signals(
                (DriverState {
                    writers: erase(old(self)@.signals.writers, id.0),
                    ..old(self)@.signals
                }),
            ),
            final(self)@.signals.wf(),
    {
        proof {
            use_type_invariant(&*self);
            lemma_erase(self@.signals.writers, id.0);
        }
        let mut writers = Table::new();
        std::mem::swap(&mut writers, &mut self.writers);
        let _ = writers.remove(id.0);
        self.writers = writers;
    }

    /// Join those who learn of the connection's end. The handle collects the
    /// reason with `poll_closed`, also when the connection has ended already.
    pub fn subscribe_closed(&mut self) -> (handle: Option<u64>)
        ensures
            final(self)@ == old(self)@.with_signals(
                old(self)@.signals.with_closed(old(self)@.signals.closed.subscribe().0),
            ),
            handle == old(self)@.signals.closed.subscribe().1,
            final(self)@.signals.wf(),
    {
        proof {
            use_type_invariant(&*self);
        }
        let mut closed: Notifier<ConnectionError> = Notifier::new();
        std::mem::swap(&mut closed, &mut self.closed);
        let handle = closed.subscribe();
        self.closed = closed;
        handle
    }

    /// Collect the reason of the connection's end: `Some` the first time a
    /// subscribed handle asks after the connection ended, `None` otherwise.
    pub fn poll_closed(&mut self, handle: u64) -> (r: Option<ConnectionError>)
        ensures
            final(self)@ == old(self)@.with_signals(
                old(self)@.signals.with_closed(old(self)@.signals.closed.poll(handle).0),
            ),
            r == old(self)@.signals.closed.poll(handle).1,
            final(self)@.signals.wf(),
    {
        proof {
            use_type_invariant(&*self);
        }
        let mut closed: Notifier<ConnectionError> = Notifier::new();
        std::mem::swap(&mut closed, &mut self.closed);
        let r = closed.poll(handle);
        self.closed = closed;
        r
    }

    /// Give up a handle of the close notifier.
    pub fn unsubscribe_closed(&mut self, handle: u64)
        ensures
            final(self)@ == old(self)@.with_signals(
                old(self)@.signals.with_closed(old(self)@.signals.closed.unsubscribe(handle)),
            ),
            final(self)@.signals.wf(),
    {
        proof {
            use_type_invariant(&*self);
        }
        let mut closed: Notifier<ConnectionError> = Notifier::new();
        std::mem::swap(&mut closed, &mut self.closed);
        closed.unsubscribe(handle);
        self.closed = closed;
    }

    /// Where the connection stands.
    pub fn phase(&self) -> (phase: Phase)
        ensures
            phase == self@.signals.phase,
    {
        self.phase
    }

    /// Why the connection ended, once it has.
    pub fn error(&self) -> (error: Option<ConnectionError>)
        ensures
            error == self@.signals.error(),
    {
        self.closed.payload()
    }

    /// The reason code of the close asked for from this side, if one was.
    pub fn closing(&self) -> (code: Option<VarInt>)
        ensures
            code == self@.closing,
    {
        self.closing
    }

    /// How many inbound events wait for the engine.
    pub fn inbound_len(&self) -> (n: usize)
        ensures
            n == self@.inbound.len(),
    {
        self.inbound.len()
    }

    /// How many events wait for the endpoint.
    pub fn outbox_len(&self) -> (n: usize)
        ensures
            n == self@.outbox.len(),
    {
        self.outbox.len()
    }
}

} // verus!
