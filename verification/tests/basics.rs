use quinn::platform::{Addr, Ip, SocketCapabilities, Transmit};
use quinn::table::Table;
use quinn::transport::{Poll, Socket, SocketError};
use quinn::{Dir, Side, StreamId, VarInt, IO_LOOP_BOUND};

struct Plain;

impl Socket for Plain {
    fn poll_send(&self, transmits: &Vec<Transmit>) -> Poll<Result<usize, SocketError>> {
        Poll::Ready(Ok(transmits.len()))
    }

    fn poll_recv(
        &self,
        _bufs: &mut Vec<Vec<u8>>,
        _meta: &mut Vec<quinn::platform::RecvMeta>,
    ) -> Poll<Result<usize, SocketError>> {
        Poll::Pending
    }

    fn local_addr(&self) -> Result<Addr, SocketError> {
        Ok(Addr { ip: Ip::V4(0x7f00_0001), port: 4433 })
    }
}

struct Offloading;

impl Socket for Offloading {
    fn poll_send(&self, _transmits: &Vec<Transmit>) -> Poll<Result<usize, SocketError>> {
        Poll::Pending
    }

    fn poll_recv(
        &self,
        _bufs: &mut Vec<Vec<u8>>,
        _meta: &mut Vec<quinn::platform::RecvMeta>,
    ) -> Poll<Result<usize, SocketError>> {
        Poll::Pending
    }

    fn local_addr(&self) -> Result<Addr, SocketError> {
        Err(SocketError::Other)
    }

    fn caps() -> SocketCapabilities {
        SocketCapabilities { max_gso_segments: 8 }
    }
}

fn transmit(len: usize, segment: Option<usize>) -> Transmit {
    Transmit {
        destination: Addr { ip: Ip::V4(1), port: 1 },
        ecn: None,
        contents: vec![0u8; len],
        segment_size: segment,
        src_ip: None,
    }
}

#[test]
fn io_loop_bound_is_ten() {
    assert_eq!(IO_LOOP_BOUND, 10);
}

#[test]
fn socket_caps_default_to_one_segment() {
    assert_eq!(Plain::caps(), SocketCapabilities { max_gso_segments: 1 });
    assert_eq!(Plain::caps().max_gso_segments, 1);
}

#[test]
fn socket_caps_can_report_larger_batches() {
    assert_eq!(Offloading::caps().max_gso_segments, 8);
}

#[test]
fn socket_local_addr_is_passed_through() {
    assert_eq!(Plain.local_addr(), Ok(Addr { ip: Ip::V4(0x7f00_0001), port: 4433 }));
    assert_eq!(Offloading.local_addr(), Err(SocketError::Other));
}

#[test]
fn varint_from_u32_keeps_the_value() {
    assert_eq!(VarInt::from_u32(0).into_inner(), 0);
    assert_eq!(VarInt::from_u32(42).into_inner(), 42);
    assert_eq!(VarInt::from_u32(u32::MAX).into_inner(), u32::MAX as u64);
}

#[test]
fn varint_from_u64_succeeds_below_two_to_the_62() {
    let largest = (1u64 << 62) - 1;
    assert_eq!(VarInt::from_u64(largest).unwrap().into_inner(), largest);
    assert_eq!(VarInt::from_u64(7).unwrap(), VarInt::from_u32(7));
}

#[test]
fn varint_from_u64_fails_from_two_to_the_62() {
    assert!(VarInt::from_u64(1u64 << 62).is_err());
    assert!(VarInt::from_u64(u64::MAX).is_err());
}

#[test]
fn stream_id_encodes_initiator_direction_and_index() {
    assert_eq!(StreamId::new(Side::Client, Dir::Bi, 0).0, 0);
    assert_eq!(StreamId::new(Side::Server, Dir::Bi, 0).0, 1);
    assert_eq!(StreamId::new(Side::Client, Dir::Uni, 0).0, 2);
    assert_eq!(StreamId::new(Side::Server, Dir::Uni, 0).0, 3);
    assert_eq!(StreamId::new(Side::Server, Dir::Uni, 5).0, 23);
}

#[test]
fn stream_id_decodes_what_it_encoded() {
    let id = StreamId::new(Side::Server, Dir::Uni, 1234);
    assert_eq!(id.initiator(), Side::Server);
    assert_eq!(id.dir(), Dir::Uni);
    assert_eq!(id.index(), 1234);
    let other = StreamId(8);
    assert_eq!(other.initiator(), Side::Client);
    assert_eq!(other.dir(), Dir::Bi);
    assert_eq!(other.index(), 2);
}

#[test]
fn stream_id_takes_the_largest_index() {
    let largest = (1u64 << 62) - 1;
    let id = StreamId::new(Side::Server, Dir::Uni, largest);
    assert_eq!(id.0, u64::MAX);
    assert_eq!(id.index(), largest);
}

#[test]
fn datagram_count_of_unsegmented_transmit_is_one() {
    assert_eq!(transmit(0, None).datagram_count(), 1);
    assert_eq!(transmit(5000, None).datagram_count(), 1);
}

#[test]
fn datagram_count_rounds_up_to_whole_segments() {
    assert_eq!(transmit(2400, Some(1200)).datagram_count(), 2);
    assert_eq!(transmit(2401, Some(1200)).datagram_count(), 3);
    assert_eq!(transmit(1, Some(1200)).datagram_count(), 1);
    assert_eq!(transmit(0, Some(1200)).datagram_count(), 0);
}

#[test]
fn datagram_count_with_zero_segment_size_is_one() {
    assert_eq!(transmit(100, Some(0)).datagram_count(), 1);
}

#[test]
fn table_insert_replaces_and_keeps_order() {
    let mut t = Table::new();
    t.insert(1, 10);
    t.insert(2, 20);
    t.insert(1, 11);
    assert_eq!(t.len(), 2);
    assert_eq!(t.get(1), Some(11));
    assert_eq!(t.get(2), Some(20));
    assert_eq!(t.get(3), None);
    assert_eq!(t.drain(), vec![20, 11]);
    assert_eq!(t.len(), 0);
}

#[test]
fn table_remove_and_remove_value() {
    let mut t = Table::new();
    t.insert(1, 7);
    t.insert(2, 8);
    t.insert(3, 7);
    assert_eq!(t.remove(2), Some(8));
    assert_eq!(t.remove(2), None);
    t.insert(4, 9);
    t.remove_value(7);
    assert_eq!(t.get(1), None);
    assert_eq!(t.get(3), None);
    assert_eq!(t.get(4), Some(9));
    assert_eq!(t.len(), 1);
}
