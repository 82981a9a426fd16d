use bytes::Bytes;
use quinn::connection::{
    Action, ConnectionDriver, ConnectionError, ConnectionEvent, Datagram, EndpointEvent,
    EndpointNotice, Event, Phase, Report, Stage, TimerAction, TurnOutcome, Wake,
    MAX_TRANSMIT_DATAGRAMS,
};
use quinn::platform::{Addr, Ip, Transmit};
use quinn::transport::Poll;
use quinn::{Dir, Side, StreamId, VarInt, IO_LOOP_BOUND};

fn datagram(tag: u8) -> ConnectionEvent {
    ConnectionEvent::Proto(Datagram {
        remote: Addr { ip: Ip::V4(0x0a00_0001), port: 9000 },
        ecn: None,
        dst_ip: None,
        contents: Bytes::copy_from_slice(&[tag]),
    })
}

fn tag_of(event: &ConnectionEvent) -> u8 {
    match event {
        ConnectionEvent::Proto(d) => d.contents[0],
        ConnectionEvent::Close { .. } => panic!("not a datagram"),
    }
}

fn transmit(len: usize, segment: Option<usize>) -> Transmit {
    Transmit {
        destination: Addr { ip: Ip::V4(1), port: 1 },
        ecn: None,
        contents: vec![0u8; len],
        segment_size: segment,
        src_ip: None,
    }
}

fn stream(index: u64) -> StreamId {
    StreamId::new(Side::Client, Dir::Bi, index)
}

fn sample_events() -> Vec<Event> {
    vec![
        Event::StreamReadable { id: stream(1) },
        Event::Connected,
        Event::StreamWritable { id: stream(2) },
        Event::StreamOpened { dir: Dir::Uni },
        Event::StreamReadable { id: stream(3) },
        Event::StreamWritable { id: stream(1) },
        Event::StreamOpened { dir: Dir::Bi },
        Event::ConnectionLost { reason: ConnectionError::TimedOut },
        Event::StreamReadable { id: stream(1) },
    ]
}

fn loaded_driver() -> ConnectionDriver {
    let mut d = ConnectionDriver::new();
    assert_eq!(d.wait_connected(100), Poll::Pending);
    assert_eq!(d.wait_connected(101), Poll::Pending);
    d.register_reader(stream(1), 11).unwrap();
    d.register_reader(stream(3), 13).unwrap();
    d.register_reader(stream(4), 14).unwrap();
    d.register_writer(stream(1), 21).unwrap();
    d.register_writer(stream(2), 22).unwrap();
    assert_eq!(d.poll_accept_stream(Dir::Uni, 31, None), Poll::Pending);
    assert_eq!(d.poll_accept_stream(Dir::Bi, 32, None), Poll::Pending);
    assert_eq!(d.subscribe_closed(), Some(0));
    d
}

#[test]
fn new_driver_is_handshaking_and_idle() {
    let mut d = ConnectionDriver::new();
    assert_eq!(d.phase(), Phase::Handshaking);
    assert_eq!(d.error(), None);
    assert_eq!(d.closing(), None);
    assert_eq!(d.inbound_len(), 0);
    assert_eq!(d.outbox_len(), 0);
    d.begin_turn();
    assert!(d.next_inbound().is_none());
    assert_eq!(d.end_turn(), TurnOutcome::Park);
}

#[test]
fn events_wake_the_task_registered_for_them() {
    let mut d = loaded_driver();
    assert_eq!(d.on_event(Event::StreamReadable { id: stream(1) }), vec![Wake::Task(11)]);
    assert_eq!(d.on_event(Event::StreamReadable { id: stream(1) }), vec![]);
    assert_eq!(d.on_event(Event::StreamWritable { id: stream(2) }), vec![Wake::Task(22)]);
    assert_eq!(d.on_event(Event::StreamWritable { id: stream(9) }), vec![]);
    assert_eq!(d.on_event(Event::StreamOpened { dir: Dir::Uni }), vec![Wake::Task(31)]);
    assert_eq!(d.on_event(Event::StreamOpened { dir: Dir::Uni }), vec![]);
    assert_eq!(d.on_event(Event::StreamOpened { dir: Dir::Bi }), vec![Wake::Task(32)]);
    assert_eq!(d.on_event(Event::Connected), vec![Wake::Task(100), Wake::Task(101)]);
    assert_eq!(d.phase(), Phase::Established);
    assert_eq!(d.on_event(Event::Connected), vec![]);
}

#[test]
fn later_registration_replaces_the_earlier_one() {
    let mut d = ConnectionDriver::new();
    d.register_reader(stream(1), 1).unwrap();
    d.register_reader(stream(1), 2).unwrap();
    assert_eq!(d.on_event(Event::StreamReadable { id: stream(1) }), vec![Wake::Task(2)]);
}

#[test]
fn connection_lost_wakes_everyone_in_order() {
    let mut d = loaded_driver();
    let wakes = d.on_event(Event::ConnectionLost { reason: ConnectionError::Reset });
    assert_eq!(
        wakes,
        vec![
            Wake::Task(21),
            Wake::Task(22),
            Wake::Task(11),
            Wake::Task(13),
            Wake::Task(14),
            Wake::Task(31),
            Wake::Task(32),
            Wake::Task(100),
            Wake::Task(101),
            Wake::Closed(0),
        ]
    );
    assert_eq!(d.phase(), Phase::Draining);
    assert_eq!(d.error(), Some(ConnectionError::Reset));
    assert_eq!(d.poll_closed(0), Some(ConnectionError::Reset));
    assert_eq!(d.poll_closed(0), None);
}

#[test]
fn end_is_reported_once_with_the_first_reason() {
    let mut d = loaded_driver();
    d.on_event(Event::ConnectionLost { reason: ConnectionError::TimedOut });
    assert_eq!(d.on_event(Event::ConnectionLost { reason: ConnectionError::Reset }), vec![]);
    assert_eq!(d.error(), Some(ConnectionError::TimedOut));
    assert_eq!(d.on_drained(), vec![]);
    assert_eq!(d.error(), Some(ConnectionError::TimedOut));
    assert_eq!(d.phase(), Phase::Drained);
}

#[test]
fn nothing_registers_on_an_ended_connection() {
    let mut d = ConnectionDriver::new();
    d.on_event(Event::ConnectionLost { reason: ConnectionError::VersionMismatch });
    let lost = ConnectionError::VersionMismatch;
    assert_eq!(d.register_reader(stream(1), 1), Err(lost));
    assert_eq!(d.register_writer(stream(1), 1), Err(lost));
    assert_eq!(d.poll_accept_stream(Dir::Bi, 1, None), Poll::Ready(Err(lost)));
    assert_eq!(d.poll_accept_stream(Dir::Bi, 1, Some(stream(0))), Poll::Ready(Err(lost)));
    assert_eq!(d.poll_open(Dir::Uni, 1, Some(stream(0))), Poll::Ready(Err(lost)));
    assert_eq!(d.wait_connected(1), Poll::Ready(Err(lost)));
    let late = d.subscribe_closed().unwrap();
    assert_eq!(d.poll_closed(late), Some(lost));
}

#[test]
fn wait_connected_is_ready_after_the_handshake() {
    let mut d = ConnectionDriver::new();
    assert_eq!(d.wait_connected(5), Poll::Pending);
    assert_eq!(d.wait_connected(5), Poll::Pending);
    assert_eq!(d.on_event(Event::Connected), vec![Wake::Task(5)]);
    assert_eq!(d.wait_connected(5), Poll::Ready(Ok(())));
}

#[test]
fn cancelled_waiters_are_not_woken() {
    let mut d = loaded_driver();
    d.cancel_reader(stream(1));
    d.cancel_writer(stream(2));
    d.unsubscribe_closed(0);
    assert_eq!(d.on_event(Event::StreamReadable { id: stream(1) }), vec![]);
    assert_eq!(d.on_event(Event::StreamWritable { id: stream(2) }), vec![]);
    let wakes = d.on_event(Event::ConnectionLost { reason: ConnectionError::Reset });
    assert!(!wakes.contains(&Wake::Closed(0)));
    assert!(!wakes.contains(&Wake::Task(11)));
    assert!(wakes.contains(&Wake::Task(13)));
}

#[test]
fn a_turn_feeds_at_most_the_bound_in_arrival_order() {
    let mut d = ConnectionDriver::new();
    for tag in 0..25u8 {
        d.enqueue(datagram(tag));
    }
    let mut fed = Vec::new();
    let mut per_turn = Vec::new();
    loop {
        d.begin_turn();
        let mut n = 0;
        while let Some(event) = d.next_inbound() {
            fed.push(tag_of(&event));
            n += 1;
        }
        per_turn.push(n);
        match d.end_turn() {
            TurnOutcome::Yield => continue,
            TurnOutcome::Park => break,
            TurnOutcome::Retire => panic!("not drained"),
        }
    }
    assert_eq!(per_turn, vec![IO_LOOP_BOUND, IO_LOOP_BOUND, 5]);
    assert_eq!(fed, (0..25u8).collect::<Vec<u8>>());
}

#[test]
fn wakes_do_not_depend_on_the_number_of_turns() {
    let events = sample_events();
    let mut whole = loaded_driver();
    let mut expected = Vec::new();
    whole.begin_turn();
    for e in events.iter() {
        expected.extend(whole.on_event(*e));
    }
    for cut in [1usize, 2, 3, 4, 9] {
        let mut d = loaded_driver();
        let mut wakes = Vec::new();
        for turn in events.chunks(cut) {
            d.begin_turn();
            for e in turn {
                wakes.extend(d.on_event(*e));
            }
            let _ = d.end_turn();
        }
        assert_eq!(wakes, expected);
        assert_eq!(d.phase(), whole.phase());
        assert_eq!(d.error(), whole.error());
    }
    assert_eq!(
        expected,
        vec![
            Wake::Task(11),
            Wake::Task(100),
            Wake::Task(101),
            Wake::Task(22),
            Wake::Task(31),
            Wake::Task(13),
            Wake::Task(21),
            Wake::Task(32),
            Wake::Task(14),
            Wake::Closed(0),
        ]
    );
}

#[test]
fn close_is_recorded_and_forwarded_once() {
    let mut d = ConnectionDriver::new();
    let request = d.close(VarInt::from_u32(42), b"bye").unwrap();
    match request {
        ConnectionEvent::Close { error_code, reason } => {
            assert_eq!(error_code.into_inner(), 42);
            assert_eq!(&reason[..], b"bye");
        }
        ConnectionEvent::Proto(_) => panic!("not a close"),
    }
    assert_eq!(d.closing(), Some(VarInt::from_u32(42)));
    assert!(d.close(VarInt::from_u32(43), b"again").is_none());
    assert_eq!(d.closing(), Some(VarInt::from_u32(42)));
    assert_eq!(d.error(), None);
    assert_eq!(d.end_turn(), TurnOutcome::Park);
}

#[test]
fn close_on_an_ended_connection_does_nothing() {
    let mut d = ConnectionDriver::new();
    d.on_event(Event::ConnectionLost { reason: ConnectionError::TimedOut });
    assert!(d.close(VarInt::from_u32(1), b"").is_none());
    assert_eq!(d.closing(), None);
}

#[test]
fn endpoint_wide_close_counts_as_local_close() {
    let mut d = ConnectionDriver::new();
    d.enqueue(ConnectionEvent::Close {
        error_code: VarInt::from_u32(7),
        reason: Bytes::copy_from_slice(b"shutdown"),
    });
    d.begin_turn();
    let fed = d.next_inbound().unwrap();
    assert!(matches!(fed, ConnectionEvent::Close { .. }));
    assert_eq!(d.closing(), Some(VarInt::from_u32(7)));
}

#[test]
fn drained_connection_fires_tells_the_endpoint_and_retires() {
    let mut d = loaded_driver();
    d.close(VarInt::from_u32(42), b"done");
    let wakes = d.on_drained();
    assert_eq!(wakes.len(), 10);
    assert_eq!(wakes[9], Wake::Closed(0));
    assert_eq!(d.phase(), Phase::Drained);
    assert_eq!(d.error(), Some(ConnectionError::LocallyClosed));
    assert_eq!(d.end_turn(), TurnOutcome::Retire);
    assert!(matches!(
        d.pop_endpoint_event(),
        Some(EndpointEvent::Proto(EndpointNotice::Drained))
    ));
    assert!(d.pop_endpoint_event().is_none());
    assert_eq!(d.on_drained(), vec![]);
    assert_eq!(d.outbox_len(), 0);
}

#[test]
fn timer_is_armed_only_on_change() {
    let mut d = ConnectionDriver::new();
    assert_eq!(d.set_deadline(None), TimerAction::Unchanged);
    assert_eq!(d.set_deadline(Some(50)), TimerAction::Arm(50));
    assert_eq!(d.set_deadline(Some(50)), TimerAction::Unchanged);
    assert_eq!(d.set_deadline(Some(60)), TimerAction::Arm(60));
    assert_eq!(d.set_deadline(None), TimerAction::Disarm);
}

#[test]
fn timer_fires_at_its_deadline_once() {
    let mut d = ConnectionDriver::new();
    assert!(!d.timer_fired(100));
    d.set_deadline(Some(50));
    assert!(!d.timer_fired(49));
    assert!(d.timer_fired(50));
    assert!(!d.timer_fired(51));
    assert_eq!(d.set_deadline(Some(50)), TimerAction::Arm(50));
    assert!(d.timer_fired(u64::MAX));
}

#[test]
fn transmits_are_capped_per_turn() {
    let mut d = ConnectionDriver::new();
    d.begin_turn();
    let mut pushed = 0;
    while d.may_transmit() {
        let more = d.push_transmit(transmit(1200, None));
        pushed += 1;
        assert_eq!(more, d.may_transmit());
    }
    assert_eq!(pushed, MAX_TRANSMIT_DATAGRAMS);
    assert_eq!(d.outbox_len(), MAX_TRANSMIT_DATAGRAMS);
    assert_eq!(d.end_turn(), TurnOutcome::Yield);
    d.begin_turn();
    assert!(d.may_transmit());
    assert_eq!(d.end_turn(), TurnOutcome::Park);
}

#[test]
fn segmented_transmit_counts_each_datagram() {
    let mut d = ConnectionDriver::new();
    d.begin_turn();
    assert!(d.push_transmit(transmit(1200 * 19, Some(1200))));
    assert!(!d.push_transmit(transmit(1200, None)));
    d.begin_turn();
    assert!(!d.push_transmit(transmit(1200 * 50, Some(1200))));
    assert!(!d.may_transmit());
}

#[test]
fn outbox_is_first_in_first_out() {
    let mut d = ConnectionDriver::new();
    d.push_transmit(transmit(1, None));
    d.notify_endpoint(EndpointNotice::RetireConnectionId(5));
    d.push_transmit(transmit(2, None));
    match d.pop_endpoint_event() {
        Some(EndpointEvent::Transmit(t)) => assert_eq!(t.contents.len(), 1),
        _ => panic!("expected the first transmit"),
    }
    assert!(matches!(
        d.pop_endpoint_event(),
        Some(EndpointEvent::Proto(EndpointNotice::RetireConnectionId(5)))
    ));
    match d.pop_endpoint_event() {
        Some(EndpointEvent::Transmit(t)) => assert_eq!(t.contents.len(), 2),
        _ => panic!("expected the second transmit"),
    }
    assert!(d.pop_endpoint_event().is_none());
}

#[test]
fn local_close_with_code_42_reaches_the_peers_pending_operations() {
    // The closing side.
    let mut local = ConnectionDriver::new();
    local.on_event(Event::Connected);
    let request = local.close(VarInt::from_u32(42), b"going away").unwrap();
    let code = match request {
        ConnectionEvent::Close { error_code, .. } => error_code,
        ConnectionEvent::Proto(_) => panic!("not a close"),
    };
    // The accepting side, with operations pending on three streams.
    let mut peer = ConnectionDriver::new();
    peer.on_event(Event::Connected);
    peer.register_reader(stream(0), 1).unwrap();
    peer.register_reader(stream(1), 2).unwrap();
    peer.register_writer(stream(1), 3).unwrap();
    let watcher = peer.subscribe_closed().unwrap();
    // The peer's engine reads the close frame and reports the loss.
    let reason = ConnectionError::ApplicationClosed { code };
    let wakes = peer.on_event(Event::ConnectionLost { reason });
    assert_eq!(
        wakes,
        vec![Wake::Task(3), Wake::Task(1), Wake::Task(2), Wake::Closed(watcher)]
    );
    let observed = ConnectionError::ApplicationClosed { code: VarInt::from_u32(42) };
    assert_eq!(peer.error(), Some(observed));
    assert_eq!(peer.register_reader(stream(0), 1), Err(observed));
    assert_eq!(peer.register_reader(stream(1), 2), Err(observed));
    assert_eq!(peer.register_writer(stream(1), 3), Err(observed));
    assert_eq!(peer.poll_closed(watcher), Some(observed));
    // The closing side runs down and retires.
    local.on_drained();
    assert_eq!(local.error(), Some(ConnectionError::LocallyClosed));
    assert_eq!(local.end_turn(), TurnOutcome::Retire);
}

#[test]
fn accept_stream_returns_what_the_engine_has() {
    let mut d = ConnectionDriver::new();
    assert_eq!(d.poll_accept_stream(Dir::Bi, 1, Some(stream(4))), Poll::Ready(Ok(stream(4))));
    assert_eq!(d.poll_accept_stream(Dir::Bi, 1, None), Poll::Pending);
    assert_eq!(d.poll_accept_stream(Dir::Bi, 2, None), Poll::Pending);
    assert_eq!(d.on_event(Event::StreamOpened { dir: Dir::Uni }), vec![]);
    assert_eq!(d.on_event(Event::StreamOpened { dir: Dir::Bi }), vec![Wake::Task(2)]);
    assert_eq!(d.poll_accept_stream(Dir::Bi, 2, Some(stream(8))), Poll::Ready(Ok(stream(8))));
}

#[test]
fn open_waits_for_a_stream_to_become_available() {
    let mut d = ConnectionDriver::new();
    assert_eq!(d.poll_open(Dir::Uni, 1, Some(stream(2))), Poll::Ready(Ok(stream(2))));
    assert_eq!(d.poll_open(Dir::Uni, 1, None), Poll::Pending);
    assert_eq!(d.poll_open(Dir::Uni, 2, None), Poll::Pending);
    assert_eq!(d.poll_open(Dir::Uni, 1, None), Poll::Pending);
    assert_eq!(d.poll_open(Dir::Bi, 3, None), Poll::Pending);
    assert_eq!(
        d.on_event(Event::StreamAvailable { dir: Dir::Uni }),
        vec![Wake::Task(1), Wake::Task(2)]
    );
    assert_eq!(d.on_event(Event::StreamAvailable { dir: Dir::Uni }), vec![]);
    assert_eq!(d.on_event(Event::StreamAvailable { dir: Dir::Bi }), vec![Wake::Task(3)]);
}

#[test]
fn those_waiting_to_open_are_woken_by_the_end() {
    let mut d = ConnectionDriver::new();
    assert_eq!(d.poll_open(Dir::Bi, 7, None), Poll::Pending);
    assert_eq!(d.poll_open(Dir::Uni, 8, None), Poll::Pending);
    let wakes = d.lose(ConnectionError::TransportError { code: VarInt::from_u32(1) });
    assert_eq!(wakes, vec![Wake::Task(8), Wake::Task(7)]);
    assert_eq!(d.error(), Some(ConnectionError::TransportError { code: VarInt::from_u32(1) }));
    assert_eq!(d.lose(ConnectionError::Reset), vec![]);
}

#[test]
fn cancelled_acceptor_is_not_woken() {
    let mut d = ConnectionDriver::new();
    assert_eq!(d.poll_accept_stream(Dir::Uni, 1, None), Poll::Pending);
    assert_eq!(d.poll_accept_stream(Dir::Bi, 2, None), Poll::Pending);
    d.cancel_acceptor(Dir::Uni);
    assert_eq!(d.on_event(Event::StreamOpened { dir: Dir::Uni }), vec![]);
    assert_eq!(d.on_event(Event::StreamOpened { dir: Dir::Bi }), vec![Wake::Task(2)]);
}

#[test]
fn a_task_that_gave_up_waiting_is_not_woken() {
    let mut d = ConnectionDriver::new();
    assert_eq!(d.wait_connected(1), Poll::Pending);
    assert_eq!(d.wait_connected(2), Poll::Pending);
    assert_eq!(d.poll_open(Dir::Uni, 1, None), Poll::Pending);
    assert_eq!(d.poll_open(Dir::Bi, 3, None), Poll::Pending);
    d.cancel_waiting(1);
    assert_eq!(d.on_event(Event::StreamAvailable { dir: Dir::Uni }), vec![]);
    assert_eq!(d.on_event(Event::Connected), vec![Wake::Task(2)]);
    assert_eq!(d.on_event(Event::StreamAvailable { dir: Dir::Bi }), vec![Wake::Task(3)]);
}

/// A stand-in for the engine that records the order in which it is asked.
struct Scripted {
    log: Vec<String>,
    events: Vec<Event>,
    transmits: usize,
    deadline: Option<u64>,
    drained: bool,
}

fn run_turn(d: &mut ConnectionDriver, engine: &mut Scripted, now: u64) -> (TurnOutcome, Vec<Wake>) {
    let mut woken = Vec::new();
    let mut report = Report::Start;
    loop {
        let (action, wakes) = d.advance(report, now);
        woken.extend(wakes);
        report = match action {
            Action::Feed(event) => {
                engine.log.push(format!("feed {}", tag_of(&event)));
                Report::Fed
            }
            Action::AskDeadline => {
                engine.log.push(format!("deadline"));
                Report::Deadline(engine.deadline)
            }
            Action::HandleTimeout => {
                engine.log.push(format!("timeout"));
                engine.deadline = None;
                Report::TimedOut
            }
            Action::PollEvent => {
                engine.log.push(format!("event"));
                if engine.events.is_empty() {
                    Report::Event(None)
                } else {
                    Report::Event(Some(engine.events.remove(0)))
                }
            }
            Action::PollTransmit => {
                engine.log.push(format!("transmit"));
                if engine.transmits == 0 {
                    Report::Transmit(None)
                } else {
                    engine.transmits -= 1;
                    Report::Transmit(Some(transmit(1200, None)))
                }
            }
            Action::AskDrained => {
                engine.log.push(format!("drained"));
                Report::Drained(engine.drained)
            }
            Action::End(outcome) => return (outcome, woken),
        };
    }
}

#[test]
fn a_turn_takes_its_steps_in_order() {
    let mut d = ConnectionDriver::new();
    assert_eq!(d.stage(), Stage::Done);
    d.register_reader(stream(1), 11).unwrap();
    d.enqueue(datagram(1));
    d.enqueue(datagram(2));
    let mut engine = Scripted {
        log: Vec::new(),
        events: vec![Event::Connected, Event::StreamReadable { id: stream(1) }],
        transmits: 2,
        deadline: Some(40),
        drained: false,
    };
    let (outcome, woken) = run_turn(&mut d, &mut engine, 50);
    assert_eq!(outcome, TurnOutcome::Park);
    assert_eq!(woken, vec![Wake::Task(11)]);
    assert_eq!(
        engine.log,
        vec![
            "feed 1", "feed 2", "deadline", "timeout", "event", "event", "event", "transmit",
            "transmit", "transmit", "drained"
        ]
    );
    assert_eq!(d.stage(), Stage::Done);
    assert_eq!(d.deadline(), None);
    assert_eq!(d.outbox_len(), 2);
    assert_eq!(d.phase(), Phase::Established);
}

#[test]
fn a_timer_that_is_not_due_is_left_armed() {
    let mut d = ConnectionDriver::new();
    let mut engine =
        Scripted { log: Vec::new(), events: vec![], transmits: 0, deadline: Some(90), drained: false };
    let (outcome, _) = run_turn(&mut d, &mut engine, 50);
    assert_eq!(outcome, TurnOutcome::Park);
    assert_eq!(engine.log, vec!["deadline", "event", "transmit", "drained"]);
    assert_eq!(d.deadline(), Some(90));
}

#[test]
fn a_turn_stops_feeding_and_transmitting_at_the_caps() {
    let mut d = ConnectionDriver::new();
    for tag in 0..12u8 {
        d.enqueue(datagram(tag));
    }
    let mut engine =
        Scripted { log: Vec::new(), events: vec![], transmits: 100, deadline: None, drained: false };
    let (outcome, _) = run_turn(&mut d, &mut engine, 0);
    assert_eq!(outcome, TurnOutcome::Yield);
    assert_eq!(engine.log.iter().filter(|l| l.starts_with("feed")).count(), IO_LOOP_BOUND);
    assert_eq!(engine.log.iter().filter(|l| *l == "transmit").count(), MAX_TRANSMIT_DATAGRAMS);
    assert_eq!(d.inbound_len(), 2);
    let (outcome, _) = run_turn(&mut d, &mut engine, 0);
    assert_eq!(outcome, TurnOutcome::Yield);
    assert_eq!(d.inbound_len(), 0);
}

#[test]
fn a_turn_on_a_drained_engine_retires_the_driver() {
    let mut d = loaded_driver();
    let mut engine =
        Scripted { log: Vec::new(), events: vec![], transmits: 0, deadline: None, drained: true };
    let (outcome, woken) = run_turn(&mut d, &mut engine, 0);
    assert_eq!(outcome, TurnOutcome::Retire);
    assert_eq!(woken.len(), 10);
    assert_eq!(d.error(), Some(ConnectionError::LocallyClosed));
}

#[test]
fn a_report_out_of_place_changes_nothing() {
    let mut d = ConnectionDriver::new();
    d.register_reader(stream(1), 11).unwrap();
    let (action, wakes) = d.advance(Report::Start, 0);
    assert!(matches!(action, Action::AskDeadline));
    assert!(wakes.is_empty());
    let (action, wakes) =
        d.advance(Report::Event(Some(Event::StreamReadable { id: stream(1) })), 0);
    assert!(matches!(action, Action::AskDeadline));
    assert!(wakes.is_empty());
    let (action, _) = d.advance(Report::Transmit(Some(transmit(1, None))), 0);
    assert!(matches!(action, Action::AskDeadline));
    assert_eq!(d.outbox_len(), 0);
    assert_eq!(d.stage(), Stage::Deadline);
    let (action, _) = d.advance(Report::Drained(true), 0);
    assert!(matches!(action, Action::AskDeadline));
    assert_eq!(d.phase(), Phase::Handshaking);
}
