//! The network service's per-connection TCP receive path: what one incoming segment does to a
//! connection and whether it is answered with an ACK. It has no retransmission of its own (the
//! peer retransmits), drops out-of-order data without an ACK, and closes at once where the
//! protocol would wait in TIME_WAIT.
use vstd::prelude::*;
use crate::net::tcp::{State, TCP_ACK, TCP_FIN, TCP_RST, TCP_SYN};

verus! {

/// Bytes a connection buffers before the client takes them.
pub const RX_MAX: usize = 4096;

/// One connection of the network service.
pub struct TcpConn {
    state: State,
    reset: bool,
    peer_closed: bool,
    snd_nxt: u32,
    rcv_nxt: u32,
    rx: [u8; RX_MAX],
    rx_len: usize,
}

/// The abstract state of a connection.
pub struct ConnView {
    /// Current state.
    pub state: State,
    /// The peer reset the connection.
    pub reset: bool,
    /// The peer has sent FIN.
    pub peer_closed: bool,
    /// Next sequence number to send.
    pub snd_nxt: u32,
    /// Next sequence number expected from the peer.
    pub rcv_nxt: u32,
    /// Received bytes not yet taken.
    pub rx: Seq<u8>,
}

impl View for TcpConn {
    type V = ConnView;

    closed spec fn view(&self) -> ConnView {
        ConnView {
            state: self.state,
            reset: self.reset,
            peer_closed: self.peer_closed,
            snd_nxt: self.snd_nxt,
            rcv_nxt: self.rcv_nxt,
            rx: self.rx@.subrange(0, self.rx_len as int),
        }
    }
}

/// What a segment `(seq, ack, flags, payload)` does to a connection in `c`, and the flags of
/// the segment sent back, if any.
pub open spec fn conn_spec(c: ConnView, seq: u32, ack: u32, flags: u8, payload: Seq<u8>) -> (ConnView, Option<u8>) {
    if flags & TCP_RST != 0 {
        (ConnView { state: State::Closed, reset: true, ..c }, None)
    } else {
        match c.state {
            State::SynSent => if flags & (TCP_SYN | TCP_ACK) == TCP_SYN | TCP_ACK && ack == c.snd_nxt {
                (ConnView { rcv_nxt: seq.wrapping_add(1), state: State::Established, ..c }, Some(TCP_ACK))
            } else {
                (c, None)
            },
            State::Established | State::FinWait1 | State::FinWait2 => {
                let stored = payload.len() != 0 && seq == c.rcv_nxt && payload.len() <= RX_MAX - c.rx.len();
                let c1 = if stored {
                    ConnView { rx: c.rx + payload, rcv_nxt: c.rcv_nxt.wrapping_add(payload.len() as u32), ..c }
                } else {
                    c
                };
                let fin = flags & TCP_FIN != 0 && seq.wrapping_add(payload.len() as u32) == c1.rcv_nxt;
                let c2 = if fin {
                    ConnView {
                        rcv_nxt: c1.rcv_nxt.wrapping_add(1),
                        peer_closed: true,
                        state: if c1.state == State::Established { State::CloseWait } else { State::Closed },
                        ..c1
                    }
                } else {
                    c1
                };
                let c3 = if c2.state == State::FinWait1 && flags & TCP_ACK != 0 && ack == c2.snd_nxt {
                    ConnView { state: if c2.peer_closed { State::Closed } else { State::FinWait2 }, ..c2 }
                } else {
                    c2
                };
                (c3, if stored || fin { Some(TCP_ACK) } else { None })
            },
            State::LastAck => if flags & TCP_ACK != 0 && ack == c.snd_nxt {
                (ConnView { state: State::Closed, ..c }, None)
            } else {
                (c, None)
            },
            _ => (c, None),
        }
    }
}

impl TcpConn {
    /// The buffer count is within its capacity.
    pub closed spec fn wf(&self) -> bool {
        self.rx_len <= RX_MAX
    }

    /// A connection in `state` with the given sequence numbers and an empty buffer.
    pub fn new(state: State, snd_nxt: u32, rcv_nxt: u32) -> (c: TcpConn)
        ensures
            c.wf(),
            c@ == (ConnView { state, reset: false, peer_closed: false, snd_nxt, rcv_nxt, rx: Seq::empty() }),
    {
        let c = TcpConn { state, reset: false, peer_closed: false, snd_nxt, rcv_nxt, rx: [0u8; RX_MAX], rx_len: 0 };
        assert(c@.rx =~= Seq::<u8>::empty());
        c
    }

    /// Current state.
    pub fn state(&self) -> (r: State)
        ensures
            r == self@.state,
    {
        self.state
    }

    /// Whether the peer reset the connection.
    pub fn was_reset(&self) -> (r: bool)
        ensures
            r == self@.reset,
    {
        self.reset
    }

    /// Whether the peer has sent FIN.
    pub fn peer_closed(&self) -> (r: bool)
        ensures
            r == self@.peer_closed,
    {
        self.peer_closed
    }

    /// Next sequence number expected from the peer.
    pub fn rcv_nxt(&self) -> (r: u32)
        ensures
            r == self@.rcv_nxt,
    {
        self.rcv_nxt
    }

    /// The received bytes not yet taken.
    pub fn received(&self) -> (r: &[u8])
        requires
            self.wf(),
        ensures
            r@ == self@.rx,
    {
        vstd::slice::slice_subrange(self.rx.as_slice(), 0, self.rx_len)
    }

    /// Applies one incoming segment; returns the flags of the segment to send back (an ACK),
    /// if one is owed.
    pub fn on_segment(&mut self, seq: u32, ack: u32, flags: u8, payload: &[u8]) -> (emit: Option<u8>)
        requires
            old(self).wf(),
        ensures
            final(self).wf(),
            (final(self)@, emit) == conn_spec(old(self)@, seq, ack, flags, payload@),
    {
        if flags & TCP_RST != 0 {
            self.state = State::Closed;
            self.reset = true;
            return None;
        }
        match self.state {
            State::SynSent => {
                if flags & (TCP_SYN | TCP_ACK) == TCP_SYN | TCP_ACK && ack == self.snd_nxt {
                    self.rcv_nxt = seq.wrapping_add(1);
                    self.state = State::Established;
                    Some(TCP_ACK)
                } else {
                    None
                }
            },
            State::Established | State::FinWait1 | State::FinWait2 => {
                let mut advanced = false;
                let ghost rx0 = self@.rx;
                if payload.len() != 0 && seq == self.rcv_nxt && payload.len() <= RX_MAX - self.rx_len {
                    let start = self.rx_len;
                    let mut i: usize = 0;
                    while i < payload.len()
                        invariant
                            start == old(self).rx_len,
                            start + payload.len() <= RX_MAX,
                            i <= payload.len(),
                            self.rx_len == start,
                            self.rx@.subrange(0, start as int) == rx0,
                            forall|k: int| 0 <= k < i ==> #[trigger] self.rx@[start + k] == payload@[k],
                            self.state == old(self).state,
                            self.reset == old(self).reset,
                            self.peer_closed == old(self).peer_closed,
                            self.snd_nxt == old(self).snd_nxt,
                            self.rcv_nxt == old(self).rcv_nxt,
                        decreases payload.len() - i,
                    {
                        self.rx.set(start + i, payload[i]);
                        proof {
                            assert(self.rx@.subrange(0, start as int) =~= rx0);
                        }
                        i += 1;
                    }
                    self.rx_len = start + payload.len();
                    self.rcv_nxt = self.rcv_nxt.wrapping_add(payload.len() as u32);
                    assert forall|k: int| 0 <= k < start + payload.len() implies #[trigger] self.rx@[k] == (rx0 + payload@)[k] by {
                        if k < start {
                            assert(self.rx@.subrange(0, start as int)[k] == rx0[k]);
                        } else {
                            assert(self.rx@[start + (k - start)] == payload@[k - start]);
                        }
                    }
                    assert(self@.rx =~= rx0 + payload@);
                    advanced = true;
                }
                if flags & TCP_FIN != 0 && seq.wrapping_add(payload.len() as u32) == self.rcv_nxt {
                    self.rcv_nxt = self.rcv_nxt.wrapping_add(1);
                    self.peer_closed = true;
                    advanced = true;
                    self.state = if self.state == State::Established { State::CloseWait } else { State::Closed };
                }
                if self.state == State::FinWait1 && flags & TCP_ACK != 0 && ack == self.snd_nxt {
                    self.state = if self.peer_closed { State::Closed } else { State::FinWait2 };
                }
                if advanced {
                    Some(TCP_ACK)
                } else {
                    None
                }
            },
            State::LastAck => {
                if flags & TCP_ACK != 0 && ack == self.snd_nxt {
                    self.state = State::Closed;
                }
                None
            },
            _ => None,
        }
    }
}

/// Out-of-order data is dropped without an ACK: a segment with data that does not start at
/// the next expected sequence number, and no RST or FIN, leaves the connection as it was and
/// is not answered.
pub proof fn lemma_out_of_order_dropped(c: ConnView, seq: u32, ack: u32, flags: u8, payload: Seq<u8>)
    requires
        c.state == State::Established || c.state == State::FinWait2,
        payload.len() != 0,
        seq != c.rcv_nxt,
        flags & TCP_RST == 0,
        flags & TCP_FIN == 0,
    ensures
        conn_spec(c, seq, ack, flags, payload) == (c, None::<u8>),
{
}

/// There is no TIME_WAIT: once our FIN is acknowledged, the peer's FIN in order closes the
/// connection at once.
pub proof fn lemma_no_time_wait(c: ConnView, seq: u32, ack: u32, flags: u8)
    requires
        c.state == State::FinWait2,
        flags & TCP_RST == 0,
        flags & TCP_FIN != 0,
        seq == c.rcv_nxt,
    ensures
        conn_spec(c, seq, ack, flags, Seq::empty()).0.state == State::Closed,
        conn_spec(c, seq, ack, flags, Seq::empty()).1 == Some(TCP_ACK),
{
    assert(seq.wrapping_add(0u32) == seq);
}

} // verus!
