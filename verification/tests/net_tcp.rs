use lib::net::tcp::{State, TcpSegment, TcpSocket, MAX_RETRIES, MSS, RTO_NS, RX_CAP, TCP_ACK, TCP_FIN, TCP_PSH, TCP_RST, TCP_SYN};

const IP: [u8; 4] = [10, 0, 2, 2];

fn seg(seq: u32, ack: u32, flags: u8, payload: &[u8]) -> TcpSegment<'_> {
    TcpSegment { src_port: 80, dst_port: 41000, seq, ack, flags, window: 8192, payload }
}

fn established(now: u64) -> TcpSocket {
    let (mut s, syn) = TcpSocket::connect(41000, IP, 80, 1000, now);
    assert_eq!(syn.flags, TCP_SYN);
    assert_eq!(syn.seq, 1000);
    let ack = s.on_segment(&seg(5000, 1001, TCP_SYN | TCP_ACK, b""), now).unwrap();
    assert_eq!(s.state, State::Established);
    assert_eq!(ack.flags, TCP_ACK);
    assert_eq!(ack.ack, 5001);
    s
}

#[test]
fn handshake_and_data_both_ways() {
    let mut s = established(0);
    let tx = s.send(b"ola", 0).unwrap();
    assert_eq!((tx.seq, tx.payload_len), (1001, 3));
    assert_eq!(s.tx_payload(), b"ola");
    assert_eq!(s.send(b"x", 0), Err(true));
    assert!(s.on_segment(&seg(5001, 1004, TCP_ACK, b""), 0).is_none());
    assert!(s.send(b"x", 0).is_ok());
    let ack = s.on_segment(&seg(5001, 1005, TCP_ACK | TCP_PSH, b"resp"), 0).unwrap();
    assert_eq!(ack.ack, 5005);
    let mut buf = [0u8; 16];
    assert_eq!(s.take_rx(&mut buf), 4);
    assert_eq!(&buf[..4], b"resp");
    let dup = s.on_segment(&seg(9999, 1005, TCP_ACK | TCP_PSH, b"zzz"), 0).unwrap();
    assert_eq!(dup.ack, 5005);
    assert_eq!(s.take_rx(&mut buf), 0);
}

#[test]
fn retransmission_until_reset() {
    let mut s = established(0);
    let tx = s.send(b"dado", 0).unwrap();
    for i in 1..=MAX_RETRIES as u64 {
        let r = s.poll(i * RTO_NS).unwrap();
        assert_eq!((r.seq, r.payload_len, r.flags), (tx.seq, 4, TCP_ACK | TCP_PSH));
    }
    assert!(s.poll((MAX_RETRIES as u64 + 1) * RTO_NS).is_none());
    assert_eq!(s.state, State::Closed);
    assert!(s.reset);
}

#[test]
fn retransmitted_syn_then_success() {
    let (mut s, _) = TcpSocket::connect(41000, IP, 80, 1000, 0);
    let r = s.poll(RTO_NS).unwrap();
    assert_eq!((r.seq, r.flags), (1000, TCP_SYN));
    let _ = s.on_segment(&seg(7000, 1001, TCP_SYN | TCP_ACK, b""), RTO_NS).unwrap();
    assert_eq!(s.state, State::Established);
    assert!(s.poll(10 * RTO_NS).is_none());
}

#[test]
fn active_close_fin_wait() {
    let mut s = established(0);
    let fin = s.close(0).unwrap();
    assert_eq!((fin.flags, fin.seq), (TCP_FIN | TCP_ACK, 1001));
    assert_eq!(s.state, State::FinWait1);
    assert!(s.on_segment(&seg(5001, 1002, TCP_ACK, b""), 0).is_none());
    assert_eq!(s.state, State::FinWait2);
    let ack = s.on_segment(&seg(5001, 1002, TCP_FIN | TCP_ACK, b""), 0).unwrap();
    assert_eq!(ack.ack, 5002);
    assert_eq!(s.state, State::Closed);
    assert!(!s.reset);
}

#[test]
fn passive_close_close_wait_last_ack() {
    let mut s = established(0);
    let ack = s.on_segment(&seg(5001, 1001, TCP_FIN | TCP_ACK | TCP_PSH, b"fim"), 0).unwrap();
    assert_eq!(ack.ack, 5005);
    assert_eq!(s.state, State::CloseWait);
    assert!(s.peer_closed);
    let tx = s.send(b"tchau", 0).unwrap();
    assert!(s.on_segment(&seg(5005, tx.seq.wrapping_add(5), TCP_ACK, b""), 0).is_none());
    let fin = s.close(0).unwrap();
    assert_eq!(s.state, State::LastAck);
    assert!(s.on_segment(&seg(5005, fin.seq.wrapping_add(1), TCP_ACK, b""), 0).is_none());
    assert_eq!(s.state, State::Closed);
}

#[test]
fn rst_resets_any_state() {
    let mut s = established(0);
    assert!(s.on_segment(&seg(5001, 1001, TCP_RST, b""), 0).is_none());
    assert_eq!(s.state, State::Closed);
    assert!(s.reset);
    assert_eq!(s.send(b"x", 0), Err(false));
    assert!(s.close(0).is_none());
}

#[test]
fn rx_backpressure_never_acks_what_it_dropped() {
    let mut s = established(0);
    let big = [7u8; MSS];
    let mut seq = 5001u32;
    let mut acked = 0;
    while acked + MSS <= RX_CAP {
        let a = s.on_segment(&seg(seq, 1001, TCP_ACK, &big), 0).unwrap();
        seq = seq.wrapping_add(MSS as u32);
        acked += MSS;
        assert_eq!(a.ack, seq);
    }
    assert!(s.on_segment(&seg(seq, 1001, TCP_ACK, &big), 0).is_none());
    let mut sink = [0u8; RX_CAP];
    assert_eq!(s.take_rx(&mut sink), acked);
}

#[test]
fn getters_report_the_public_fields() {
    let (s, _) = TcpSocket::connect(41000, IP, 80, 1000, 0);
    assert_eq!(s.current_state(), State::SynSent);
    assert_eq!(s.current_state(), s.state);
    assert_eq!(s.was_reset(), s.reset);
    assert!(!s.peer_has_closed());
}
