use lib::net::conn::TcpConn;
use lib::net::tcp::{State, TCP_ACK, TCP_FIN, TCP_RST, TCP_SYN};

#[test]
fn handshake_then_data_in_order_is_acked() {
    let mut c = TcpConn::new(State::SynSent, 1001, 0);
    assert_eq!(c.on_segment(5000, 1000, TCP_SYN | TCP_ACK, b""), None);
    assert_eq!(c.state(), State::SynSent);
    assert_eq!(c.on_segment(5000, 1001, TCP_SYN | TCP_ACK, b""), Some(TCP_ACK));
    assert_eq!(c.state(), State::Established);
    assert_eq!(c.rcv_nxt(), 5001);
    assert_eq!(c.on_segment(5001, 1001, TCP_ACK, b"abc"), Some(TCP_ACK));
    assert_eq!(c.received(), b"abc");
    assert_eq!(c.rcv_nxt(), 5004);
}

#[test]
fn out_of_order_data_is_dropped_without_ack() {
    let mut c = TcpConn::new(State::Established, 1, 100);
    assert_eq!(c.on_segment(150, 1, TCP_ACK, b"late"), None);
    assert_eq!(c.received(), b"");
    assert_eq!(c.rcv_nxt(), 100);
}

#[test]
fn fin_moves_to_close_wait_and_reset_closes() {
    let mut c = TcpConn::new(State::Established, 1, 100);
    assert_eq!(c.on_segment(100, 1, TCP_ACK | TCP_FIN, b"xy"), Some(TCP_ACK));
    assert_eq!(c.state(), State::CloseWait);
    assert!(c.peer_closed());
    assert_eq!(c.rcv_nxt(), 103);
    assert_eq!(c.on_segment(0, 0, TCP_RST, b""), None);
    assert_eq!(c.state(), State::Closed);
    assert!(c.was_reset());
}

#[test]
fn fin_after_our_fin_closes_at_once() {
    let mut c = TcpConn::new(State::FinWait1, 7, 40);
    assert_eq!(c.on_segment(40, 7, TCP_ACK, b""), None);
    assert_eq!(c.state(), State::FinWait2);
    assert_eq!(c.on_segment(40, 7, TCP_ACK | TCP_FIN, b""), Some(TCP_ACK));
    assert_eq!(c.state(), State::Closed);
    let mut l = TcpConn::new(State::LastAck, 9, 0);
    assert_eq!(l.on_segment(0, 9, TCP_ACK, b""), None);
    assert_eq!(l.state(), State::Closed);
}
