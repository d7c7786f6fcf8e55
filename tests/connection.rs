use tcp_tun::manager::{ConnectionManager, Quad, ReadStep};
use tcp_tun::seq::{is_between_wrapped, wrapping_lt};
use tcp_tun::tcp::{segment_acceptable, srtt_update, Connection, Segment, State, TcpError};

const PEER: u32 = 0xC0A8_0002;
const LOCAL: u32 = 0xC0A8_0001;

fn seg(seq: u32, ack: u32, syn: bool, ack_flag: bool, fin: bool, payload: &[u8]) -> Segment {
    Segment {
        src_addr: PEER,
        dst_addr: LOCAL,
        src_port: 40000,
        dst_port: 8000,
        seq,
        ack,
        window: 1024,
        syn,
        ack_flag,
        fin,
        rst: false,
        payload: payload.to_vec(),
    }
}

fn quad() -> Quad {
    Quad { src_addr: PEER, src_port: 40000, dst_addr: LOCAL, dst_port: 8000 }
}

/// SYN(1000), SYN|ACK, ACK(1001, 1): an established connection.
fn established(out: &mut Vec<Segment>) -> Connection {
    let mut c = Connection::accept(out, &seg(1000, 0, true, false, false, &[]), 0).unwrap();
    c.on_packet(out, &seg(1001, 1, false, true, false, &[]), 5).unwrap();
    c
}

#[test]
fn lt_wraps_around() {
    assert!(wrapping_lt(1, 2));
    assert!(!wrapping_lt(2, 1));
    assert!(wrapping_lt(0xFFFF_FFF0, 5));
    assert!(!wrapping_lt(7, 7));
}

#[test]
fn between_excludes_both_ends() {
    assert!(is_between_wrapped(10, 11, 20));
    assert!(!is_between_wrapped(10, 10, 20));
    assert!(!is_between_wrapped(10, 20, 20));
    assert!(is_between_wrapped(0xFFFF_FFFE, 1, 3));
}

#[test]
fn state_synchronized() {
    assert!(!State::SynRecvd.is_synchronized());
    assert!(State::Estab.is_synchronized());
    assert!(State::TimeWait.is_synchronized());
}

#[test]
fn passive_open_one_byte_exchange() {
    let mut out = Vec::new();
    let mut c = Connection::accept(&mut out, &seg(1000, 0, true, false, false, &[]), 0).unwrap();
    assert_eq!(c.state, State::SynRecvd);
    assert_eq!(out.len(), 1);
    assert!(out[0].syn && out[0].ack_flag);
    assert_eq!(out[0].seq, 0);
    assert_eq!(out[0].ack, 1001);
    assert_eq!(out[0].src_port, 8000);
    assert_eq!(out[0].dst_addr, PEER);

    c.on_packet(&mut out, &seg(1001, 1, false, true, false, &[]), 5).unwrap();
    assert_eq!(c.state, State::Estab);
    assert_eq!(c.send.una, 1);

    let a = c.on_packet(&mut out, &seg(1001, 1, false, true, false, b"x"), 6).unwrap();
    assert!(a.read);
    assert_eq!(c.incoming.iter().copied().collect::<Vec<u8>>(), b"x".to_vec());
    assert_eq!(c.recv.nxt, 1002);
    let last = out.last().unwrap();
    assert_eq!(last.ack, 1002);
    assert!(last.payload.is_empty());
}

#[test]
fn accept_without_syn_is_refused() {
    let mut out = Vec::new();
    assert!(Connection::accept(&mut out, &seg(1000, 0, false, true, false, &[]), 0).is_none());
    assert!(out.is_empty());
}

#[test]
fn retransmission_after_timeout() {
    let mut out = Vec::new();
    let mut c = established(&mut out);
    assert_eq!(c.send_data(b"hello"), Ok(5));
    let before = out.len();
    c.on_tick(&mut out, 10);
    assert_eq!(out.len(), before + 1);
    assert_eq!(out.last().unwrap().seq, 1);
    assert_eq!(out.last().unwrap().payload, b"hello".to_vec());
    assert_eq!(c.send.nxt, 6);

    // 100 s later: over 1 s and over 1.5 times the 60 s estimate
    c.on_tick(&mut out, 100_010);
    assert_eq!(out.len(), before + 2);
    assert_eq!(out.last().unwrap().seq, 1);
    assert_eq!(out.last().unwrap().payload, b"hello".to_vec());

    c.on_packet(&mut out, &seg(1001, 6, false, true, false, &[]), 100_020).unwrap();
    assert!(c.unacked.is_empty());
    assert_eq!(c.send.una, 6);
}

#[test]
fn no_retransmission_before_timeout() {
    let mut out = Vec::new();
    let mut c = established(&mut out);
    c.send_data(b"abc").unwrap();
    c.on_tick(&mut out, 10);
    c.on_tick(&mut out, 900);
    let last = out.last().unwrap();
    assert_eq!(last.seq, 4);
    assert!(last.payload.is_empty());
    assert_eq!(c.send.nxt, 4);
}

#[test]
fn application_close() {
    let mut out = Vec::new();
    let mut c = established(&mut out);
    c.on_packet(&mut out, &seg(1001, 1, false, true, false, b"x"), 6).unwrap();
    assert!(c.unacked.is_empty());
    c.close().unwrap();
    assert_eq!(c.state, State::FinWait1);

    c.on_tick(&mut out, 7);
    let fin = out.last().unwrap();
    assert!(fin.fin);
    assert_eq!(fin.seq, 1);
    assert_eq!(c.closed_at, Some(1));

    c.on_packet(&mut out, &seg(1002, 2, false, true, false, &[]), 8).unwrap();
    assert_eq!(c.state, State::FinWait2);

    let a = c.on_packet(&mut out, &seg(1002, 2, false, true, true, &[]), 9).unwrap();
    assert_eq!(out.last().unwrap().ack, 1003);
    assert_eq!(c.state, State::TimeWait);
    assert!(a.read);
    assert_eq!(c.read_data(16), b"x".to_vec());
    assert!(c.read_data(16).is_empty());
    assert!(c.is_rcv_closed());
}

#[test]
fn close_in_time_wait_is_not_connected() {
    let mut out = Vec::new();
    let mut c = established(&mut out);
    c.state = State::TimeWait;
    assert_eq!(c.close(), Err(TcpError::NotConnected));
}

#[test]
fn fin_in_estab_is_unexpected() {
    let mut out = Vec::new();
    let mut c = established(&mut out);
    let r = c.on_packet(&mut out, &seg(1001, 1, false, true, true, &[]), 9);
    assert_eq!(r, Err(TcpError::UnexpectedFin));
}

#[test]
fn back_pressure() {
    let mut out = Vec::new();
    let mut c = established(&mut out);
    let buf = vec![7u8; 2048];
    assert_eq!(c.send_data(&buf), Ok(1024));
    assert_eq!(c.unacked.len(), 1024);
}

#[test]
fn full_queue_would_block() {
    let mut out = Vec::new();
    let mut c = established(&mut out);
    c.send_data(&vec![1u8; 1024]).unwrap();
    assert_eq!(c.send_data(b"more"), Err(TcpError::WouldBlock));
    assert_eq!(c.unacked.len(), 1024);
    assert!(c.unacked.iter().all(|b| *b == 1));
}

#[test]
fn acks_drain_written_bytes() {
    let mut out = Vec::new();
    let mut c = established(&mut out);
    let n: u32 = 10;
    c.send_data(&vec![3u8; n as usize]).unwrap();
    c.on_tick(&mut out, 10);
    c.on_packet(&mut out, &seg(1001, c.send.iss + 1 + n, false, true, false, &[]), 20).unwrap();
    assert!(c.unacked.is_empty());
    assert_eq!(c.send.una, c.send.iss + 1 + n);
}

#[test]
fn unacceptable_segment_gets_bare_ack() {
    let mut out = Vec::new();
    let mut c = established(&mut out);
    c.on_packet(&mut out, &seg(1001, 1, false, true, false, b"x"), 6).unwrap();
    assert_eq!(c.recv.nxt, 1002);
    assert_eq!(c.recv.wnd, 1024);
    let before = c.incoming.len();
    let n = out.len();
    c.on_packet(&mut out, &seg(1002 + 2048, 1, false, true, false, b"zz"), 7).unwrap();
    assert_eq!(out.len(), n + 1);
    assert_eq!(out.last().unwrap().ack, 1002);
    assert!(out.last().unwrap().payload.is_empty());
    assert_eq!(c.incoming.len(), before);
    assert_eq!(c.recv.nxt, 1002);
}

#[test]
fn zero_window_accepts_empty_segment_at_nxt() {
    assert!(segment_acceptable(500, 0, 500, 0));
    assert!(!segment_acceptable(500, 0, 501, 0));
    assert!(!segment_acceptable(500, 0, 500, 1));
}

#[test]
fn window_upper_bound_is_exclusive() {
    assert!(!segment_acceptable(1000, 100, 1100, 1));
    assert!(segment_acceptable(1000, 100, 1099, 1));
    assert!(!segment_acceptable(1000, 100, 1100, 0));
    assert!(segment_acceptable(1000, 100, 999, 2));
}

#[test]
fn srtt_moves_toward_elapsed() {
    assert_eq!(srtt_update(60_000, 100), 48_020);
    let mut s: u64 = 60_000;
    for _ in 0..100 {
        let n = srtt_update(s, 100);
        assert!(n <= s && n >= 100);
        s = n;
    }
    assert!(s < 110);
    assert_eq!(srtt_update(100, 100), 100);
}

#[test]
fn packet_round_trip() {
    let s = Segment {
        src_addr: LOCAL,
        dst_addr: PEER,
        src_port: 8000,
        dst_port: 40000,
        seq: 0xDEAD_BEEF,
        ack: 1001,
        window: 1024,
        syn: true,
        ack_flag: true,
        fin: false,
        rst: false,
        payload: b"payload".to_vec(),
    };
    let b = s.to_packet();
    assert_eq!(b.len(), 47);
    assert_eq!(b[0], 0x45);
    assert_eq!(b[8], 64);
    assert_eq!(b[9], 6);
    let t = Segment::from_packet(&b).unwrap();
    assert_eq!(t.src_addr, s.src_addr);
    assert_eq!(t.dst_addr, s.dst_addr);
    assert_eq!(t.src_port, s.src_port);
    assert_eq!(t.dst_port, s.dst_port);
    assert_eq!(t.seq, s.seq);
    assert_eq!(t.ack, s.ack);
    assert_eq!(t.window, s.window);
    assert_eq!((t.syn, t.ack_flag, t.fin, t.rst), (true, true, false, false));
    assert_eq!(t.payload, s.payload);
}

#[test]
fn non_tcp_packet_is_dropped() {
    let s = seg(1, 2, false, true, false, b"abc");
    let mut b = s.to_packet();
    b[9] = 17;
    assert!(Segment::from_packet(&b).is_none());
    assert!(Segment::from_packet(&b[..10]).is_none());
}

#[test]
fn bind_collision() {
    let mut m = ConnectionManager::new();
    assert_eq!(m.bind(8000), Ok(()));
    assert_eq!(m.bind(8000), Err(TcpError::AddressInUse));
    m.unbind(8000);
    assert_eq!(m.bind(8000), Ok(()));
}

#[test]
fn table_accepts_syn_on_listening_port() {
    let mut m = ConnectionManager::new();
    let mut out = Vec::new();
    let w = m.on_segment(&mut out, &seg(1000, 0, true, false, false, &[]), 0).unwrap();
    assert!(!w.accept);
    assert!(out.is_empty());
    m.bind(8000).unwrap();
    let w = m.on_segment(&mut out, &seg(1000, 0, true, false, false, &[]), 0).unwrap();
    assert!(w.accept);
    assert_eq!(out.len(), 1);
    assert_eq!(m.accept_pending(8000), Some(quad()));
    assert_eq!(m.accept_pending(8000), None);

    m.on_segment(&mut out, &seg(1001, 1, false, true, false, &[]), 1).unwrap();
    let w = m.on_segment(&mut out, &seg(1001, 1, false, true, false, b"hi"), 2).unwrap();
    assert!(w.read);
    match m.stream_read(quad(), 1).unwrap() {
        ReadStep::Data(d) => assert_eq!(d, b"h".to_vec()),
        _ => panic!("expected data"),
    }
    match m.stream_read(quad(), 8).unwrap() {
        ReadStep::Data(d) => assert_eq!(d, b"i".to_vec()),
        _ => panic!("expected data"),
    }
    assert!(matches!(m.stream_read(quad(), 8), Ok(ReadStep::Wait)));
    assert_eq!(m.stream_write(quad(), b"abc"), Ok(3));
    assert_eq!(m.stream_flush(quad()), Err(TcpError::WouldBlock));
    assert_eq!(m.stream_shutdown(quad()), Ok(()));
}

#[test]
fn unknown_stream_is_aborted() {
    let mut m = ConnectionManager::new();
    assert_eq!(m.stream_write(quad(), b"a"), Err(TcpError::ConnectionAborted));
    assert_eq!(m.stream_flush(quad()), Err(TcpError::ConnectionAborted));
    assert_eq!(m.stream_shutdown(quad()), Err(TcpError::ConnectionAborted));
    assert!(matches!(m.stream_read(quad(), 1), Err(TcpError::ConnectionAborted)));
}

#[test]
fn send_rst_is_zeroed() {
    let mut out = Vec::new();
    let c = established(&mut out);
    c.send_rst(&mut out);
    let r = out.last().unwrap();
    assert!(r.rst);
    assert_eq!((r.seq, r.ack), (0, 0));
}

#[test]
fn nxt_stays_ahead_of_una() {
    let mut out = Vec::new();
    let mut c = established(&mut out);
    assert!(c.state.is_synchronized());
    assert!(wrapping_lt(c.send.iss, c.send.una) || c.send.una == c.send.iss);
    c.send_data(b"0123456789").unwrap();
    c.on_tick(&mut out, 10);
    assert!(!wrapping_lt(c.send.nxt, c.send.una));
    c.on_packet(&mut out, &seg(1001, 4, false, true, false, &[]), 20).unwrap();
    assert_eq!(c.send.una, 4);
    assert_eq!(c.unacked.len(), 7);
    assert!(!wrapping_lt(c.send.nxt, c.send.una));
    assert!(wrapping_lt(c.send.iss, c.send.una));
}

#[test]
fn recv_nxt_never_moves_back() {
    let mut out = Vec::new();
    let mut c = established(&mut out);
    c.on_packet(&mut out, &seg(1001, 1, false, true, false, b"abcd"), 6).unwrap();
    assert_eq!(c.recv.nxt, 1005);
    // a retransmission overlapping old data delivers only the new bytes
    c.on_packet(&mut out, &seg(1003, 1, false, true, false, b"cdef"), 7).unwrap();
    assert_eq!(c.recv.nxt, 1007);
    assert_eq!(c.read_data(16), b"abcdef".to_vec());
    // a segment beyond recv.nxt leaves a hole: it is acknowledged, not delivered
    c.on_packet(&mut out, &seg(1010, 1, false, true, false, b"zz"), 8).unwrap();
    assert_eq!(c.recv.nxt, 1007);
    assert_eq!(out.last().unwrap().ack, 1007);
    assert!(c.incoming.is_empty());
}

#[test]
fn zero_length_read_and_repeated_eof() {
    let mut m = ConnectionManager::new();
    let mut out = Vec::new();
    m.bind(8000).unwrap();
    m.on_segment(&mut out, &seg(1000, 0, true, false, false, &[]), 0).unwrap();
    m.on_segment(&mut out, &seg(1001, 1, false, true, false, &[]), 1).unwrap();
    m.on_segment(&mut out, &seg(1001, 1, false, true, false, b"x"), 2).unwrap();
    match m.stream_read(quad(), 0).unwrap() {
        ReadStep::Data(d) => assert!(d.is_empty()),
        _ => panic!("expected an empty read"),
    }
    m.stream_shutdown(quad()).unwrap();
    m.tick_all(&mut out, 3);
    m.on_segment(&mut out, &seg(1002, 2, false, true, false, &[]), 4).unwrap();
    m.on_segment(&mut out, &seg(1002, 2, false, true, true, &[]), 5).unwrap();
    match m.stream_read(quad(), 8).unwrap() {
        ReadStep::Data(d) => assert_eq!(d, b"x".to_vec()),
        _ => panic!("expected data"),
    }
    assert!(matches!(m.stream_read(quad(), 8), Ok(ReadStep::Eof)));
    assert!(matches!(m.stream_read(quad(), 8), Ok(ReadStep::Eof)));
}
