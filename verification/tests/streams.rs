use bytes::Bytes;
use quinn::connection::{ConnectionDriver, ConnectionError, Event, Wake};
use quinn::recv_stream::{
    read_to_end, EngineRead, Progress, ReadError, ReadExact, ReadExactError, ReadToEnd,
    ReadToEndError, RecvStream,
};
use quinn::send_stream::{EngineWrite, SendPhase, SendStream, WriteError};
use quinn::transport::Poll;
use quinn::{Dir, Side, StreamId, VarInt};

fn stream(index: u64) -> StreamId {
    StreamId::new(Side::Client, Dir::Bi, index)
}

fn chunk(bytes: &[u8]) -> EngineRead {
    EngineRead::Chunk(Bytes::copy_from_slice(bytes))
}

/// A stand-in for the engine's send side: a flow-control window in front of
/// the bytes committed to the stream.
struct Window {
    credit: usize,
    committed: Vec<u8>,
}

impl Window {
    fn write(&mut self, data: &[u8]) -> EngineWrite {
        if self.credit == 0 {
            return EngineWrite::Blocked;
        }
        let n = data.len().min(self.credit);
        self.committed.extend_from_slice(&data[..n]);
        self.credit -= n;
        EngineWrite::Written(n)
    }
}

#[test]
fn write_suspends_on_a_closed_window_and_completes_after_the_update() {
    let mut conn = ConnectionDriver::new();
    conn.on_event(Event::Connected);
    let mut send = SendStream::new(stream(3));
    let mut engine = Window { credit: 0, committed: Vec::new() };
    let data = b"hello, flow control";
    let task = 77;

    assert_eq!(send.check(&conn), Ok(()));
    let answer = engine.write(data);
    assert_eq!(send.on_write(&mut conn, task, data.len(), answer), Poll::Pending);
    assert!(engine.committed.is_empty());

    // Events for other streams do not resume the writer.
    assert_eq!(conn.on_event(Event::StreamWritable { id: stream(4) }), vec![]);
    assert_eq!(conn.on_event(Event::StreamReadable { id: stream(3) }), vec![]);

    // The peer opens the window; the engine reports the stream writable.
    engine.credit = 12;
    assert_eq!(conn.on_event(Event::StreamWritable { id: stream(3) }), vec![Wake::Task(task)]);

    let mut offset = 0;
    let answer = engine.write(&data[offset..]);
    assert_eq!(send.on_write(&mut conn, task, data.len() - offset, answer), Poll::Ready(Ok(12)));
    offset += 12;
    let answer = engine.write(&data[offset..]);
    assert_eq!(send.on_write(&mut conn, task, data.len() - offset, answer), Poll::Pending);
    engine.credit = 100;
    assert_eq!(conn.on_event(Event::StreamWritable { id: stream(3) }), vec![Wake::Task(task)]);
    let answer = engine.write(&data[offset..]);
    assert_eq!(send.on_write(&mut conn, task, data.len() - offset, answer), Poll::Ready(Ok(7)));
    assert_eq!(engine.committed, data.to_vec());
    assert_eq!(send.written(), data.len() as u64);
}

#[test]
fn write_reports_no_more_than_was_offered() {
    let mut conn = ConnectionDriver::new();
    let mut send = SendStream::new(stream(0));
    assert_eq!(send.on_write(&mut conn, 1, 4, EngineWrite::Written(9)), Poll::Ready(Ok(4)));
    assert_eq!(send.on_write(&mut conn, 1, 4, EngineWrite::Written(0)), Poll::Ready(Ok(0)));
    assert_eq!(send.written(), 4);
}

#[test]
fn write_errors_come_from_the_engine_or_the_connection() {
    let mut conn = ConnectionDriver::new();
    let mut send = SendStream::new(stream(0));
    let code = VarInt::from_u32(5);
    assert_eq!(
        send.on_write(&mut conn, 1, 4, EngineWrite::Stopped(code)),
        Poll::Ready(Err(WriteError::Stopped(code)))
    );
    assert_eq!(
        send.on_write(&mut conn, 1, 4, EngineWrite::UnknownStream),
        Poll::Ready(Err(WriteError::UnknownStream))
    );
    conn.on_event(Event::ConnectionLost { reason: ConnectionError::TimedOut });
    let lost = WriteError::ConnectionClosed(ConnectionError::TimedOut);
    assert_eq!(send.check(&conn), Err(lost));
    assert_eq!(send.on_write(&mut conn, 1, 4, EngineWrite::Written(4)), Poll::Ready(Err(lost)));
    assert_eq!(send.on_write(&mut conn, 1, 4, EngineWrite::Blocked), Poll::Ready(Err(lost)));
    assert_eq!(send.written(), 0);
}

#[test]
fn no_write_after_finish() {
    let mut conn = ConnectionDriver::new();
    let mut send = SendStream::new(stream(0));
    assert_eq!(send.phase(), SendPhase::Open);
    assert_eq!(send.finish(&conn), Ok(()));
    assert_eq!(send.phase(), SendPhase::Finished);
    assert_eq!(send.finish(&conn), Err(WriteError::UnknownStream));
    assert_eq!(send.check(&conn), Err(WriteError::UnknownStream));
    assert_eq!(
        send.on_write(&mut conn, 1, 4, EngineWrite::Written(4)),
        Poll::Ready(Err(WriteError::UnknownStream))
    );
}

#[test]
fn reset_forgets_the_suspended_writer() {
    let mut conn = ConnectionDriver::new();
    let mut send = SendStream::new(stream(2));
    assert_eq!(send.id(), stream(2));
    assert_eq!(send.on_write(&mut conn, 8, 1, EngineWrite::Blocked), Poll::Pending);
    assert_eq!(send.reset(&mut conn, VarInt::from_u32(1)), Ok(VarInt::from_u32(1)));
    assert_eq!(send.phase(), SendPhase::Reset);
    assert_eq!(conn.on_event(Event::StreamWritable { id: stream(2) }), vec![]);
    assert_eq!(send.reset(&mut conn, VarInt::from_u32(1)), Err(WriteError::UnknownStream));
    assert_eq!(send.check(&conn), Err(WriteError::UnknownStream));
}

#[test]
fn reset_after_finish_is_permitted() {
    let mut conn = ConnectionDriver::new();
    let mut send = SendStream::new(stream(2));
    send.finish(&conn).unwrap();
    assert_eq!(send.reset(&mut conn, VarInt::from_u32(1)), Ok(VarInt::from_u32(1)));
    conn.on_event(Event::ConnectionLost { reason: ConnectionError::Reset });
    let mut other = SendStream::new(stream(3));
    assert_eq!(
        other.reset(&mut conn, VarInt::from_u32(1)),
        Err(WriteError::ConnectionClosed(ConnectionError::Reset))
    );
    assert_eq!(other.phase(), SendPhase::Open);
}

#[test]
fn read_copies_the_chunk_and_keeps_what_does_not_fit() {
    let mut conn = ConnectionDriver::new();
    let mut recv = RecvStream::new(stream(1));
    assert_eq!(recv.id(), stream(1));
    assert!(recv.needs_engine());
    let mut buf = vec![9u8];
    let r = recv.on_read(&mut conn, 1, &mut buf, 3, chunk(b"abcdefg"));
    assert_eq!(r, Poll::Ready(Ok(Some(3))));
    assert_eq!(buf, vec![9, b'a', b'b', b'c']);
    assert!(!recv.needs_engine());
    let r = recv.on_read(&mut conn, 1, &mut buf, 3, EngineRead::Blocked);
    assert_eq!(r, Poll::Ready(Ok(Some(3))));
    let r = recv.on_read(&mut conn, 1, &mut buf, 3, chunk(b"hi"));
    assert_eq!(r, Poll::Ready(Ok(Some(1))));
    let r = recv.on_read(&mut conn, 1, &mut buf, 3, EngineRead::Finished);
    assert_eq!(r, Poll::Ready(Ok(Some(2))));
    assert_eq!(&buf[1..], b"abcdefghi");
    let r = recv.on_read(&mut conn, 1, &mut buf, 3, EngineRead::Blocked);
    assert_eq!(r, Poll::Ready(Ok(None)));
    assert_eq!(&buf[1..], b"abcdefghi");
}

#[test]
fn read_suspends_until_the_stream_is_readable() {
    let mut conn = ConnectionDriver::new();
    let mut recv = RecvStream::new(stream(1));
    let mut buf = Vec::new();
    assert_eq!(recv.on_read(&mut conn, 4, &mut buf, 8, EngineRead::Blocked), Poll::Pending);
    assert_eq!(recv.on_read(&mut conn, 4, &mut buf, 8, chunk(b"")), Poll::Pending);
    assert!(buf.is_empty());
    assert_eq!(conn.on_event(Event::StreamReadable { id: stream(1) }), vec![Wake::Task(4)]);
    assert_eq!(recv.on_read(&mut conn, 4, &mut buf, 8, chunk(b"x")), Poll::Ready(Ok(Some(1))));
    assert_eq!(buf, b"x".to_vec());
}

#[test]
fn read_of_zero_bytes_takes_nothing() {
    let mut conn = ConnectionDriver::new();
    let mut recv = RecvStream::new(stream(1));
    let mut buf = Vec::new();
    assert_eq!(recv.on_read(&mut conn, 4, &mut buf, 0, chunk(b"xy")), Poll::Ready(Ok(Some(0))));
    assert_eq!(recv.on_read(&mut conn, 4, &mut buf, 5, EngineRead::Blocked), Poll::Ready(Ok(Some(2))));
    assert_eq!(buf, b"xy".to_vec());
}

#[test]
fn read_serves_bytes_before_a_reset_and_the_reset_before_the_end() {
    let mut conn = ConnectionDriver::new();
    let mut recv = RecvStream::new(stream(1));
    let mut buf = Vec::new();
    let code = VarInt::from_u32(3);
    assert_eq!(recv.on_read(&mut conn, 4, &mut buf, 1, chunk(b"ab")), Poll::Ready(Ok(Some(1))));
    assert_eq!(
        recv.on_read(&mut conn, 4, &mut buf, 1, EngineRead::Reset(code)),
        Poll::Ready(Ok(Some(1)))
    );
    assert_eq!(
        recv.on_read(&mut conn, 4, &mut buf, 1, EngineRead::Finished),
        Poll::Ready(Err(ReadError::Reset(code)))
    );
    assert_eq!(
        recv.on_read(&mut conn, 4, &mut buf, 1, EngineRead::UnknownStream),
        Poll::Ready(Err(ReadError::Reset(code)))
    );
}

#[test]
fn read_on_an_ended_connection_fails_with_the_reason() {
    let mut conn = ConnectionDriver::new();
    let mut recv = RecvStream::new(stream(1));
    let mut buf = Vec::new();
    let reason = ConnectionError::ApplicationClosed { code: VarInt::from_u32(42) };
    conn.on_event(Event::ConnectionLost { reason });
    assert_eq!(
        recv.on_read(&mut conn, 4, &mut buf, 8, chunk(b"late")),
        Poll::Ready(Err(ReadError::ConnectionClosed(reason)))
    );
    assert!(buf.is_empty());
}

#[test]
fn unknown_stream_fails_the_read() {
    let mut conn = ConnectionDriver::new();
    let mut recv = RecvStream::new(stream(1));
    let mut buf = Vec::new();
    assert_eq!(
        recv.on_read(&mut conn, 4, &mut buf, 8, EngineRead::UnknownStream),
        Poll::Ready(Err(ReadError::UnknownStream))
    );
}

#[test]
fn stop_discards_what_is_pending_and_forgets_the_reader() {
    let mut conn = ConnectionDriver::new();
    let mut recv = RecvStream::new(stream(1));
    let mut buf = Vec::new();
    recv.on_read(&mut conn, 4, &mut buf, 0, chunk(b"abc"));
    conn.register_reader(stream(1), 4).unwrap();
    assert_eq!(recv.stop(&mut conn, VarInt::from_u32(9)), Some(VarInt::from_u32(9)));
    assert_eq!(conn.on_event(Event::StreamReadable { id: stream(1) }), vec![]);
    assert_eq!(
        recv.on_read(&mut conn, 4, &mut buf, 8, EngineRead::Blocked),
        Poll::Ready(Err(ReadError::UnknownStream))
    );
    assert!(buf.is_empty());
    assert_eq!(recv.stop(&mut conn, VarInt::from_u32(9)), None);
}

#[test]
fn stop_after_the_end_is_not_forwarded() {
    let mut conn = ConnectionDriver::new();
    let mut recv = RecvStream::new(stream(1));
    let mut buf = Vec::new();
    recv.on_read(&mut conn, 4, &mut buf, 8, EngineRead::Finished);
    assert_eq!(recv.stop(&mut conn, VarInt::from_u32(9)), None);
}

#[test]
fn read_exact_composes_reads() {
    let mut conn = ConnectionDriver::new();
    let mut recv = RecvStream::new(stream(1));
    let mut read = ReadExact::new(5);
    assert_eq!(read.remaining(), 5);
    assert_eq!(read.on_read(&mut recv, &mut conn, 1, EngineRead::Blocked), Progress::Suspend);
    assert_eq!(conn.on_event(Event::StreamReadable { id: stream(1) }), vec![Wake::Task(1)]);
    assert_eq!(read.on_read(&mut recv, &mut conn, 1, chunk(b"ab")), Progress::More);
    assert_eq!(read.remaining(), 3);
    assert_eq!(read.on_read(&mut recv, &mut conn, 1, chunk(b"cdefg")), Progress::Done(Ok(())));
    assert_eq!(read.remaining(), 0);
    assert_eq!(read.on_read(&mut recv, &mut conn, 1, EngineRead::Blocked), Progress::Done(Ok(())));
    assert_eq!(read.into_bytes(), b"abcde".to_vec());
    // What the exact read left over is served to the next read.
    let mut buf = Vec::new();
    assert_eq!(
        recv.on_read(&mut conn, 1, &mut buf, 8, EngineRead::Blocked),
        Poll::Ready(Ok(Some(2)))
    );
    assert_eq!(buf, b"fg".to_vec());
}

#[test]
fn read_exact_fails_when_the_stream_ends_early() {
    let mut conn = ConnectionDriver::new();
    let mut recv = RecvStream::new(stream(1));
    let mut read = ReadExact::new(4);
    assert_eq!(read.on_read(&mut recv, &mut conn, 1, chunk(b"abc")), Progress::More);
    assert_eq!(
        read.on_read(&mut recv, &mut conn, 1, EngineRead::Finished),
        Progress::Done(Err(ReadExactError::FinishedEarly))
    );
}

#[test]
fn read_exact_passes_read_errors_on() {
    let mut conn = ConnectionDriver::new();
    let mut recv = RecvStream::new(stream(1));
    let mut read = ReadExact::new(4);
    let code = VarInt::from_u32(1);
    assert_eq!(
        read.on_read(&mut recv, &mut conn, 1, EngineRead::Reset(code)),
        Progress::Done(Err(ReadExactError::ReadError(ReadError::Reset(code))))
    );
}

#[test]
fn read_exact_of_nothing_is_done_at_once() {
    let mut conn = ConnectionDriver::new();
    let mut recv = RecvStream::new(stream(1));
    let mut read = ReadExact::new(0);
    assert_eq!(read.on_read(&mut recv, &mut conn, 1, EngineRead::Blocked), Progress::Done(Ok(())));
    assert_eq!(read.into_bytes(), Vec::<u8>::new());
}

#[test]
fn read_to_end_accepts_exactly_the_limit() {
    let max = 1000;
    let data: Vec<u8> = (0..max).map(|i| (i % 251) as u8).collect();
    let chunks: Vec<Bytes> = data.chunks(64).map(Bytes::copy_from_slice).collect();
    assert_eq!(read_to_end(&chunks, max), Ok(data));
}

#[test]
fn read_to_end_refuses_one_byte_over_the_limit() {
    let max = 1000;
    let data: Vec<u8> = vec![7u8; max + 1];
    let chunks: Vec<Bytes> = data.chunks(64).map(Bytes::copy_from_slice).collect();
    assert_eq!(read_to_end(&chunks, max), Err(ReadToEndError::TooLong));
    let one = vec![Bytes::copy_from_slice(&data)];
    assert_eq!(read_to_end(&one, max), Err(ReadToEndError::TooLong));
}

#[test]
fn read_to_end_of_an_empty_stream_is_empty() {
    assert_eq!(read_to_end(&Vec::new(), 0), Ok(Vec::new()));
    assert_eq!(read_to_end(&vec![Bytes::new()], 0), Ok(Vec::new()));
    assert_eq!(read_to_end(&vec![Bytes::copy_from_slice(b"a")], 0), Err(ReadToEndError::TooLong));
}

#[test]
fn read_to_end_never_holds_more_than_its_limit() {
    let mut read = ReadToEnd::new(5);
    assert_eq!(read.push_chunk(&Bytes::copy_from_slice(b"abc")), Ok(()));
    assert_eq!(read.len(), 3);
    assert_eq!(read.push_chunk(&Bytes::copy_from_slice(b"def")), Err(ReadToEndError::TooLong));
    assert_eq!(read.len(), 3);
    assert_eq!(read.push_chunk(&Bytes::copy_from_slice(b"de")), Ok(()));
    assert_eq!(read.len(), 5);
    assert_eq!(read.push_chunk(&Bytes::copy_from_slice(b"f")), Err(ReadToEndError::TooLong));
    assert_eq!(read.into_bytes(), b"abcde".to_vec());
}

#[test]
fn read_to_end_step_by_step() {
    let mut conn = ConnectionDriver::new();
    let id = stream(1);
    let mut read = ReadToEnd::new(6);
    assert_eq!(read.on_read(id, &mut conn, 2, EngineRead::Blocked), Progress::Suspend);
    assert_eq!(conn.on_event(Event::StreamReadable { id }), vec![Wake::Task(2)]);
    assert_eq!(read.on_read(id, &mut conn, 2, chunk(b"abc")), Progress::More);
    assert_eq!(read.on_read(id, &mut conn, 2, chunk(b"def")), Progress::More);
    assert_eq!(read.on_read(id, &mut conn, 2, EngineRead::Finished), Progress::Done(Ok(())));
    assert_eq!(read.into_bytes(), b"abcdef".to_vec());

    let mut over = ReadToEnd::new(6);
    assert_eq!(over.on_read(id, &mut conn, 2, chunk(b"abcd")), Progress::More);
    assert_eq!(
        over.on_read(id, &mut conn, 2, chunk(b"efg")),
        Progress::Done(Err(ReadToEndError::TooLong))
    );
    assert_eq!(over.len(), 4);
}

#[test]
fn read_to_end_passes_errors_on() {
    let mut conn = ConnectionDriver::new();
    let id = stream(1);
    let mut read = ReadToEnd::new(6);
    let code = VarInt::from_u32(8);
    assert_eq!(
        read.on_read(id, &mut conn, 2, EngineRead::Reset(code)),
        Progress::Done(Err(ReadToEndError::Read(ReadError::Reset(code))))
    );
    assert_eq!(
        read.on_read(id, &mut conn, 2, EngineRead::UnknownStream),
        Progress::Done(Err(ReadToEndError::Read(ReadError::UnknownStream)))
    );
    conn.on_event(Event::ConnectionLost { reason: ConnectionError::TimedOut });
    assert_eq!(
        read.on_read(id, &mut conn, 2, chunk(b"a")),
        Progress::Done(Err(ReadToEndError::Read(ReadError::ConnectionClosed(
            ConnectionError::TimedOut
        ))))
    );
    assert_eq!(read.len(), 0);
}

#[test]
fn chunked_read_hands_out_fragments_in_order() {
    let mut conn = ConnectionDriver::new();
    let mut recv = RecvStream::new(stream(1));
    let got = |r: Poll<Result<Option<Bytes>, ReadError>>| match r {
        Poll::Ready(Ok(Some(bytes))) => bytes.to_vec(),
        other => panic!("expected bytes, got {:?}", other),
    };
    assert_eq!(got(recv.on_read_chunk(&mut conn, 1, 4, chunk(b"abcdefghij"))), b"abcd".to_vec());
    assert_eq!(got(recv.on_read_chunk(&mut conn, 1, 4, chunk(b"kl"))), b"efgh".to_vec());
    assert_eq!(got(recv.on_read_chunk(&mut conn, 1, 4, EngineRead::Finished)), b"ij".to_vec());
    assert_eq!(got(recv.on_read_chunk(&mut conn, 1, 4, EngineRead::Blocked)), b"kl".to_vec());
    assert!(matches!(
        recv.on_read_chunk(&mut conn, 1, 4, EngineRead::Blocked),
        Poll::Ready(Ok(None))
    ));
}

#[test]
fn chunked_read_suspends_and_fails_like_a_read() {
    let mut conn = ConnectionDriver::new();
    let mut recv = RecvStream::new(stream(1));
    assert!(matches!(recv.on_read_chunk(&mut conn, 6, 4, EngineRead::Blocked), Poll::Pending));
    assert_eq!(conn.on_event(Event::StreamReadable { id: stream(1) }), vec![Wake::Task(6)]);
    let code = VarInt::from_u32(2);
    assert!(matches!(
        recv.on_read_chunk(&mut conn, 6, 4, EngineRead::Reset(code)),
        Poll::Ready(Err(ReadError::Reset(c))) if c == code
    ));
    conn.on_event(Event::ConnectionLost { reason: ConnectionError::Reset });
    assert!(matches!(
        recv.on_read_chunk(&mut conn, 6, 4, chunk(b"x")),
        Poll::Ready(Err(ReadError::ConnectionClosed(ConnectionError::Reset)))
    ));
}
