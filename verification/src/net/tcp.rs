//! Client-side TCP state machine, testable on the host: it knows nothing of frames or time
//! sources. It takes decoded segments and the clock in nanoseconds, and returns the segments
//! to emit. One segment (data or FIN) is pending at a time and is retransmitted every
//! `RTO_NS` up to `MAX_RETRIES` times; after that the connection counts as reset.
use vstd::prelude::*;
use vstd::slice::slice_subrange;
use crate::bytes::{copy_in, splice};

verus! {

/// TCP flag FIN.
pub const TCP_FIN: u8 = 0x01;
/// TCP flag SYN.
pub const TCP_SYN: u8 = 0x02;
/// TCP flag RST.
pub const TCP_RST: u8 = 0x04;
/// TCP flag PSH.
pub const TCP_PSH: u8 = 0x08;
/// TCP flag ACK.
pub const TCP_ACK: u8 = 0x10;

/// A decoded TCP segment.
#[derive(Debug, Clone, Copy, PartialEq, Eq)]
pub struct TcpSegment<'a> {
    /// Source port.
    pub src_port: u16,
    /// Destination port.
    pub dst_port: u16,
    /// Sequence number.
    pub seq: u32,
    /// Acknowledgment number.
    pub ack: u32,
    /// Flags.
    pub flags: u8,
    /// Advertised window.
    pub window: u16,
    /// Payload.
    pub payload: &'a [u8],
}

/// Implemented states (a subset of RFC 9293; active side only).
#[derive(Debug, Clone, Copy, PartialEq, Eq, Structural)]
pub enum State {
    /// No connection.
    Closed,
    /// SYN sent; waiting for SYN-ACK.
    SynSent,
    /// Connection open.
    Established,
    /// Our FIN sent; waiting for its ACK.
    FinWait1,
    /// FIN acknowledged; waiting for the peer's FIN.
    FinWait2,
    /// Peer closed; we may still send.
    CloseWait,
    /// FIN sent after the peer closed; waiting for the last ACK.
    LastAck,
}

/// Time until the pending segment is sent again.
pub const RTO_NS: u64 = 500_000_000;
/// Retransmissions before giving up (the connection becomes `Closed` with `reset`).
pub const MAX_RETRIES: u32 = 5;
/// Receive buffer capacity.
pub const RX_CAP: usize = 4096;
/// Largest payload per segment.
pub const MSS: usize = 1400;

/// A segment to emit (the caller builds the frame).
#[derive(Debug, Clone, Copy, PartialEq, Eq, Structural)]
pub struct TxSeg {
    /// Sequence number.
    pub seq: u32,
    /// Acknowledgment number.
    pub ack: u32,
    /// Flags.
    pub flags: u8,
    /// Payload bytes (a slice of `TcpSocket::tx_payload`).
    pub payload_len: usize,
}

/// An outgoing TCP connection.
pub struct TcpSocket {
    /// Current state.
    pub state: State,
    /// The connection was reset (RST or retransmissions exhausted).
    pub reset: bool,
    /// The peer has sent FIN.
    pub peer_closed: bool,
    /// Local port.
    pub local_port: u16,
    /// Remote IP.
    pub remote_ip: [u8; 4],
    /// Remote port.
    pub remote_port: u16,
    snd_nxt: u32,
    snd_una: u32,
    rcv_nxt: u32,
    tx: [u8; MSS],
    tx_len: usize,
    tx_seq: u32,
    tx_flags: u8,
    tx_deadline: u64,
    tx_retries: u32,
    tx_inflight: bool,
    rx: [u8; RX_CAP],
    rx_len: usize,
}

/// The abstract state of a connection.
pub struct TcpModel {
    /// Local port.
    pub local_port: u16,
    /// Remote IP.
    pub remote_ip: [u8; 4],
    /// Remote port.
    pub remote_port: u16,
    /// Current state.
    pub state: State,
    /// Reset flag.
    pub reset: bool,
    /// Peer closed flag.
    pub peer_closed: bool,
    /// Next sequence number to send.
    pub snd_nxt: u32,
    /// Oldest unacknowledged sequence number.
    pub snd_una: u32,
    /// Next sequence number expected from the peer.
    pub rcv_nxt: u32,
    /// Payload of the pending segment.
    pub tx: Seq<u8>,
    /// Sequence number of the pending segment.
    pub tx_seq: u32,
    /// Flags of the pending segment.
    pub tx_flags: u8,
    /// When the pending segment is due again.
    pub tx_deadline: u64,
    /// Retransmissions of the pending segment so far.
    pub tx_retries: u32,
    /// Whether a segment is pending.
    pub tx_inflight: bool,
    /// Received bytes not yet taken.
    pub rx: Seq<u8>,
}

/// A segment as the state machine sees it: (seq, ack, flags, payload).
pub open spec fn seg_view(seg: &TcpSegment) -> (u32, u32, u8, Seq<u8>) {
    (seg.seq, seg.ack, seg.flags, seg.payload@)
}

/// `ack` acknowledges `end`, counting from `una` (modular arithmetic).
pub open spec fn ack_covers_spec(ack: u32, end: u32, una: u32) -> bool {
    ack.wrapping_sub(una) >= end.wrapping_sub(una) && ack.wrapping_sub(una) <= 0x7fff_ffff
}

/// The pure ACK for the current position.
pub open spec fn ack_seg_spec(s: TcpModel) -> TxSeg {
    TxSeg { seq: s.snd_nxt, ack: s.rcv_nxt, flags: TCP_ACK, payload_len: 0 }
}

/// The model after an incoming ACK is applied to the pending segment.
pub open spec fn apply_ack(s: TcpModel, ack: u32, flags: u8) -> TcpModel {
    if flags & TCP_ACK != 0 && s.tx_inflight {
        let end = s.tx_seq.wrapping_add(s.tx.len() as u32).wrapping_add(
            if s.tx_flags & (TCP_SYN | TCP_FIN) != 0 { 1 } else { 0 },
        );
        if ack_covers_spec(ack, end, s.snd_una) {
            TcpModel { tx_inflight: false, snd_una: ack, tx_retries: 0, ..s }
        } else {
            s
        }
    } else {
        s
    }
}

/// Data/FIN handling in Established, FinWait1 and FinWait2.
pub open spec fn on_data_spec(s: TcpModel, seq: u32, flags: u8, payload: Seq<u8>) -> (TcpModel, Option<TxSeg>) {
    if payload.len() != 0 && seq != s.rcv_nxt {
        (s, Some(ack_seg_spec(s)))
    } else {
        let stored = payload.len() != 0 && payload.len() <= RX_CAP - s.rx.len();
        let s1 = if stored {
            TcpModel { rx: s.rx + payload, rcv_nxt: s.rcv_nxt.wrapping_add(payload.len() as u32), ..s }
        } else {
            s
        };
        let fin = flags & TCP_FIN != 0 && seq.wrapping_add(payload.len() as u32) == s1.rcv_nxt;
        let s2 = if fin {
            TcpModel {
                rcv_nxt: s1.rcv_nxt.wrapping_add(1),
                peer_closed: true,
                state: if s1.state == State::Established { State::CloseWait } else { State::Closed },
                ..s1
            }
        } else {
            s1
        };
        let s3 = if s2.state == State::FinWait1 && !s2.tx_inflight {
            TcpModel { state: if s2.peer_closed { State::Closed } else { State::FinWait2 }, ..s2 }
        } else {
            s2
        };
        (s3, if stored || fin { Some(ack_seg_spec(s3)) } else { None })
    }
}

/// The transition of `on_segment`: new state and the segment to answer with.
pub open spec fn on_segment_spec(s: TcpModel, seq: u32, ack: u32, flags: u8, payload: Seq<u8>) -> (TcpModel, Option<TxSeg>) {
    if flags & TCP_RST != 0 {
        (TcpModel { state: State::Closed, reset: true, tx_inflight: false, ..s }, None)
    } else {
        let s1 = apply_ack(s, ack, flags);
        match s1.state {
            State::SynSent => {
                if flags & (TCP_SYN | TCP_ACK) == TCP_SYN | TCP_ACK && ack == s1.snd_nxt {
                    let s2 = TcpModel { rcv_nxt: seq.wrapping_add(1), state: State::Established, ..s1 };
                    (s2, Some(ack_seg_spec(s2)))
                } else {
                    (s1, None)
                }
            },
            State::Established | State::FinWait1 | State::FinWait2 => on_data_spec(s1, seq, flags, payload),
            State::LastAck => {
                if !s1.tx_inflight {
                    (TcpModel { state: State::Closed, ..s1 }, None)
                } else {
                    (s1, None)
                }
            },
            State::CloseWait | State::Closed => (s1, None),
        }
    }
}

impl TcpSocket {
    /// The abstract state.
    pub closed spec fn view(&self) -> TcpModel {
        TcpModel {
            local_port: self.local_port,
            remote_ip: self.remote_ip,
            remote_port: self.remote_port,
            state: self.state,
            reset: self.reset,
            peer_closed: self.peer_closed,
            snd_nxt: self.snd_nxt,
            snd_una: self.snd_una,
            rcv_nxt: self.rcv_nxt,
            tx: self.tx@.subrange(0, self.tx_len as int),
            tx_seq: self.tx_seq,
            tx_flags: self.tx_flags,
            tx_deadline: self.tx_deadline,
            tx_retries: self.tx_retries,
            tx_inflight: self.tx_inflight,
            rx: self.rx@.subrange(0, self.rx_len as int),
        }
    }

    /// The current state (the `state` field, for verified callers).
    pub fn current_state(&self) -> (r: State)
        ensures
            r == self@.state,
    {
        self.state
    }

    /// Whether the connection was reset (the `reset` field).
    pub fn was_reset(&self) -> (r: bool)
        ensures
            r == self@.reset,
    {
        self.reset
    }

    /// Whether the peer has sent FIN (the `peer_closed` field).
    pub fn peer_has_closed(&self) -> (r: bool)
        ensures
            r == self@.peer_closed,
    {
        self.peer_closed
    }

    /// The buffers are within their capacities.
    pub closed spec fn wf(&self) -> bool {
        self.tx_len <= MSS && self.rx_len <= RX_CAP
    }

    /// Opens the connection: returns the socket in `SynSent` and the SYN to emit.
    pub fn connect(local_port: u16, remote_ip: [u8; 4], remote_port: u16, iss: u32, now: u64) -> (r: (Self, TxSeg))
        requires
            now <= u64::MAX - RTO_NS,
        ensures
            r.0.wf(),
            r.0@ == (TcpModel {
                local_port,
                remote_ip,
                remote_port,
                state: State::SynSent,
                reset: false,
                peer_closed: false,
                snd_nxt: iss.wrapping_add(1),
                snd_una: iss,
                rcv_nxt: 0,
                tx: Seq::empty(),
                tx_seq: iss,
                tx_flags: TCP_SYN,
                tx_deadline: (now + RTO_NS) as u64,
                tx_retries: 0,
                tx_inflight: true,
                rx: Seq::empty(),
            }),
            r.1 == (TxSeg { seq: iss, ack: 0, flags: TCP_SYN, payload_len: 0 }),
    {
        let s = TcpSocket {
            state: State::SynSent,
            reset: false,
            peer_closed: false,
            local_port,
            remote_ip,
            remote_port,
            snd_nxt: iss.wrapping_add(1),
            snd_una: iss,
            rcv_nxt: 0,
            tx: [0; MSS],
            tx_len: 0,
            tx_seq: iss,
            tx_flags: TCP_SYN,
            tx_deadline: now + RTO_NS,
            tx_retries: 0,
            tx_inflight: true,
            rx: [0; RX_CAP],
            rx_len: 0,
        };
        assert(s.tx@.subrange(0, 0) =~= Seq::<u8>::empty());
        assert(s.rx@.subrange(0, 0) =~= Seq::<u8>::empty());
        (s, TxSeg { seq: iss, ack: 0, flags: TCP_SYN, payload_len: 0 })
    }

    /// Window to advertise: the free space of the receive buffer.
    pub fn window(&self) -> (r: u16)
        requires
            self.wf(),
        ensures
            r == RX_CAP - self@.rx.len(),
    {
        (RX_CAP - self.rx_len) as u16
    }

    /// Payload of the pending segment (for emission or retransmission).
    pub fn tx_payload(&self) -> (r: &[u8])
        requires
            self.wf(),
        ensures
            r@ == self@.tx,
    {
        slice_subrange(&self.tx, 0, self.tx_len)
    }

    /// Processes a segment of this connection; returns the segment to answer with, if any.
    pub fn on_segment(&mut self, seg: &TcpSegment<'_>, _now: u64) -> (r: Option<TxSeg>)
        requires
            old(self).wf(),
        ensures
            final(self).wf(),
            (final(self)@, r) == on_segment_spec(old(self)@, seg.seq, seg.ack, seg.flags, seg.payload@),
    {
        if seg.flags & TCP_RST != 0 {
            self.state = State::Closed;
            self.reset = true;
            self.tx_inflight = false;
            return None;
        }
        if seg.flags & TCP_ACK != 0 && self.tx_inflight {
            let end = self.tx_seq.wrapping_add(self.tx_len as u32).wrapping_add(
                if self.tx_flags & (TCP_SYN | TCP_FIN) != 0 { 1 } else { 0 },
            );
            if ack_covers(seg.ack, end, self.snd_una) {
                self.tx_inflight = false;
                self.snd_una = seg.ack;
                self.tx_retries = 0;
            }
        }
        assert(self@ == apply_ack(old(self)@, seg.ack, seg.flags));
        match self.state {
            State::SynSent => {
                if seg.flags & (TCP_SYN | TCP_ACK) == TCP_SYN | TCP_ACK && seg.ack == self.snd_nxt {
                    self.rcv_nxt = seg.seq.wrapping_add(1);
                    self.state = State::Established;
                    return Some(self.ack_seg());
                }
                None
            },
            State::Established | State::FinWait1 | State::FinWait2 => self.on_data(seg),
            State::LastAck => {
                if !self.tx_inflight {
                    self.state = State::Closed;
                }
                None
            },
            State::CloseWait | State::Closed => None,
        }
    }

    fn on_data(&mut self, seg: &TcpSegment<'_>) -> (r: Option<TxSeg>)
        requires
            old(self).wf(),
        ensures
            final(self).wf(),
            (final(self)@, r) == on_data_spec(old(self)@, seg.seq, seg.flags, seg.payload@),
    {
        let ghost s0 = self@;
        let mut advanced = false;
        let n = seg.payload.len();
        if n != 0 && seg.seq == self.rcv_nxt {
            if n <= RX_CAP - self.rx_len {
                let ghost rx0 = self.rx@;
                copy_in(&mut self.rx, self.rx_len, seg.payload);
                assert(self.rx@.subrange(0, (self.rx_len + n) as int) =~= s0.rx + seg.payload@);
                self.rx_len = self.rx_len + n;
                self.rcv_nxt = self.rcv_nxt.wrapping_add(n as u32);
                advanced = true;
            }
        } else if n != 0 && seg.seq != self.rcv_nxt {
            return Some(self.ack_seg());
        }
        let ghost s1 = self@;
        if seg.flags & TCP_FIN != 0 && seg.seq.wrapping_add(n as u32) == self.rcv_nxt {
            self.rcv_nxt = self.rcv_nxt.wrapping_add(1);
            self.peer_closed = true;
            advanced = true;
            self.state = match self.state {
                State::Established => State::CloseWait,
                _ => State::Closed,
            };
        }
        if self.state == State::FinWait1 && !self.tx_inflight {
            self.state = if self.peer_closed { State::Closed } else { State::FinWait2 };
        }
        if advanced {
            Some(self.ack_seg())
        } else {
            None
        }
    }

    /// Sends data (one pending segment at a time). `Err(true)` = busy (or empty / larger than
    /// `MSS`), `Err(false)` = not connected.
    pub fn send(&mut self, data: &[u8], now: u64) -> (r: Result<TxSeg, bool>)
        requires
            old(self).wf(),
            now <= u64::MAX - RTO_NS,
        ensures
            final(self).wf(),
            old(self)@.state != State::Established && old(self)@.state != State::CloseWait ==> r == Err::<TxSeg, bool>(false) && final(self)@ == old(self)@,
            (old(self)@.state == State::Established || old(self)@.state == State::CloseWait)
                && (old(self)@.tx_inflight || data@.len() == 0 || data@.len() > MSS) ==> r == Err::<TxSeg, bool>(true) && final(self)@ == old(self)@,
            (old(self)@.state == State::Established || old(self)@.state == State::CloseWait)
                && !old(self)@.tx_inflight && 0 < data@.len() <= MSS ==> {
                &&& r == Ok::<TxSeg, bool>(TxSeg { seq: old(self)@.snd_nxt, ack: old(self)@.rcv_nxt, flags: TCP_ACK | TCP_PSH, payload_len: data@.len() as usize })
                &&& final(self)@ == (TcpModel {
                    tx: data@,
                    tx_seq: old(self)@.snd_nxt,
                    tx_flags: TCP_ACK | TCP_PSH,
                    tx_deadline: (now + RTO_NS) as u64,
                    tx_retries: 0,
                    tx_inflight: true,
                    snd_nxt: old(self)@.snd_nxt.wrapping_add(data@.len() as u32),
                    ..old(self)@
                })
            },
    {
        if self.state != State::Established && self.state != State::CloseWait {
            return Err(false);
        }
        if self.tx_inflight || data.len() == 0 || data.len() > MSS {
            return Err(true);
        }
        let n = data.len();
        copy_in(&mut self.tx, 0, data);
        assert(self.tx@.subrange(0, n as int) =~= data@);
        self.tx_len = n;
        self.tx_seq = self.snd_nxt;
        self.tx_flags = TCP_ACK | TCP_PSH;
        self.tx_deadline = now + RTO_NS;
        self.tx_retries = 0;
        self.tx_inflight = true;
        self.snd_nxt = self.snd_nxt.wrapping_add(n as u32);
        Ok(TxSeg { seq: self.tx_seq, ack: self.rcv_nxt, flags: self.tx_flags, payload_len: self.tx_len })
    }

    /// Starts closing; returns the FIN to emit (or `None` when not applicable now).
    pub fn close(&mut self, now: u64) -> (r: Option<TxSeg>)
        requires
            old(self).wf(),
            now <= u64::MAX - RTO_NS,
        ensures
            final(self).wf(),
            (old(self)@.state == State::Established || old(self)@.state == State::CloseWait) && !old(self)@.tx_inflight ==> {
                &&& r == Some(TxSeg { seq: old(self)@.snd_nxt, ack: old(self)@.rcv_nxt, flags: TCP_FIN | TCP_ACK, payload_len: 0 })
                &&& final(self)@ == (TcpModel {
                    tx: Seq::empty(),
                    tx_seq: old(self)@.snd_nxt,
                    tx_flags: TCP_FIN | TCP_ACK,
                    tx_deadline: (now + RTO_NS) as u64,
                    tx_retries: 0,
                    tx_inflight: true,
                    snd_nxt: old(self)@.snd_nxt.wrapping_add(1),
                    state: if old(self)@.state == State::Established { State::FinWait1 } else { State::LastAck },
                    ..old(self)@
                })
            },
            !((old(self)@.state == State::Established || old(self)@.state == State::CloseWait) && !old(self)@.tx_inflight)
                ==> r is None && final(self)@ == old(self)@,
    {
        match self.state {
            State::Established | State::CloseWait => {
                if self.tx_inflight {
                    return None;
                }
                self.tx_len = 0;
                self.tx_seq = self.snd_nxt;
                self.tx_flags = TCP_FIN | TCP_ACK;
                self.tx_deadline = now + RTO_NS;
                self.tx_retries = 0;
                self.tx_inflight = true;
                self.snd_nxt = self.snd_nxt.wrapping_add(1);
                self.state = if self.state == State::Established { State::FinWait1 } else { State::LastAck };
                assert(self.tx@.subrange(0, 0) =~= Seq::<u8>::empty());
                Some(TxSeg { seq: self.tx_seq, ack: self.rcv_nxt, flags: self.tx_flags, payload_len: 0 })
            },
            _ => None,
        }
    }

    /// Timer: returns the retransmission that is due, if any (applying `MAX_RETRIES`).
    pub fn poll(&mut self, now: u64) -> (r: Option<TxSeg>)
        requires
            old(self).wf(),
            now <= u64::MAX - RTO_NS,
        ensures
            final(self).wf(),
            !old(self)@.tx_inflight || old(self)@.state == State::Closed || now < old(self)@.tx_deadline
                ==> r is None && final(self)@ == old(self)@,
            old(self)@.tx_inflight && old(self)@.state != State::Closed && now >= old(self)@.tx_deadline
                && old(self)@.tx_retries >= MAX_RETRIES ==> r is None
                && final(self)@ == (TcpModel { state: State::Closed, reset: true, tx_inflight: false, ..old(self)@ }),
            old(self)@.tx_inflight && old(self)@.state != State::Closed && now >= old(self)@.tx_deadline
                && old(self)@.tx_retries < MAX_RETRIES ==> {
                &&& r == Some(TxSeg { seq: old(self)@.tx_seq, ack: old(self)@.rcv_nxt, flags: old(self)@.tx_flags, payload_len: old(self)@.tx.len() as usize })
                &&& final(self)@ == (TcpModel { tx_retries: (old(self)@.tx_retries + 1) as u32, tx_deadline: (now + RTO_NS) as u64, ..old(self)@ })
            },
    {
        if !self.tx_inflight || self.state == State::Closed || now < self.tx_deadline {
            return None;
        }
        if self.tx_retries >= MAX_RETRIES {
            self.state = State::Closed;
            self.reset = true;
            self.tx_inflight = false;
            return None;
        }
        self.tx_retries += 1;
        self.tx_deadline = now + RTO_NS;
        Some(TxSeg { seq: self.tx_seq, ack: self.rcv_nxt, flags: self.tx_flags, payload_len: self.tx_len })
    }

    /// Takes received data into `out`; returns how many bytes were copied.
    pub fn take_rx(&mut self, out: &mut [u8]) -> (r: usize)
        requires
            old(self).wf(),
        ensures
            final(self).wf(),
            r == if old(self)@.rx.len() < old(out)@.len() { old(self)@.rx.len() } else { old(out)@.len() as nat },
            final(out)@ == old(self)@.rx.subrange(0, r as int) + old(out)@.subrange(r as int, old(out)@.len() as int),
            final(self)@ == (TcpModel { rx: old(self)@.rx.subrange(r as int, old(self)@.rx.len() as int), ..old(self)@ }),
    {
        let take = if self.rx_len < out.len() { self.rx_len } else { out.len() };
        let ghost rx0 = self.rx@;
        let len = self.rx_len;
        {
            let src = slice_subrange(&self.rx, 0, take);
            copy_in(out, 0, src);
        }
        shift_down(&mut self.rx, take, len);
        self.rx_len = len - take;
        assert(old(self)@.rx.subrange(take as int, len as int) =~= rx0.subrange(take as int, len as int));
        assert(self@.rx =~= old(self)@.rx.subrange(take as int, len as int));
        assert(self.rx@.subrange(0, (len - take) as int) =~= rx0.subrange(take as int, len as int));
        assert(out@ =~= old(self)@.rx.subrange(0, take as int) + old(out)@.subrange(take as int, old(out)@.len() as int));
        take
    }

    fn ack_seg(&self) -> (r: TxSeg)
        ensures
            r == ack_seg_spec(self@),
    {
        TxSeg { seq: self.snd_nxt, ack: self.rcv_nxt, flags: TCP_ACK, payload_len: 0 }
    }
}

/// Moves `buf[from..len]` to the front of `buf`.
fn shift_down(buf: &mut [u8; RX_CAP], from: usize, len: usize)
    requires
        from <= len <= RX_CAP,
    ensures
        final(buf)@.subrange(0, len - from) == old(buf)@.subrange(from as int, len as int),
{
    let ghost b0 = buf@;
    let mut j: usize = from;
    while j < len
        invariant
            from <= j <= len,
            len <= RX_CAP,
            buf@.len() == RX_CAP,
            forall|k: int| 0 <= k < j - from ==> buf@[k] == b0[k + from],
            forall|k: int| j <= k < RX_CAP ==> buf@[k] == b0[k],
        decreases len - j,
    {
        buf[j - from] = buf[j];
        j += 1;
    }
    assert(buf@.subrange(0, len - from) =~= b0.subrange(from as int, len as int));
}

/// `ack` acknowledges `end` counting from `una` (modular arithmetic).
fn ack_covers(ack: u32, end: u32, una: u32) -> (r: bool)
    ensures
        r == ack_covers_spec(ack, end, una),
{
    ack.wrapping_sub(una) >= end.wrapping_sub(una) && ack.wrapping_sub(una) <= 0x7fff_ffff
}

/// Law: in the states that carry data, a segment moves the receive point (the number the
/// next ACK announces) past its bytes only when it stores them. The receive buffer keeps
/// what it held and grows by exactly as many bytes as the receive point moves, but for the
/// one sequence number of a FIN, which also marks the peer as closed. A reset touches
/// neither.
pub proof fn lemma_acks_only_what_is_stored(s: TcpModel, seq: u32, ack: u32, flags: u8, payload: Seq<u8>)
    requires
        s.state == State::Established || s.state == State::FinWait1 || s.state == State::FinWait2,
        s.rx.len() <= RX_CAP,
    ensures
        ({
            let t = on_segment_spec(s, seq, ack, flags, payload).0;
            let grown = t.rx.len() - s.rx.len();
            &&& t.rx.len() >= s.rx.len()
            &&& t.rx.subrange(0, s.rx.len() as int) == s.rx
            &&& (t.rcv_nxt == s.rcv_nxt.wrapping_add(grown as u32) || (t.peer_closed && t.rcv_nxt == s.rcv_nxt.wrapping_add(
                grown as u32,
            ).wrapping_add(1)))
        }),
{
    let t = on_segment_spec(s, seq, ack, flags, payload).0;
    if flags & TCP_RST == 0 {
        let s1 = apply_ack(s, ack, flags);
        assert(s1.rx == s.rx && s1.rcv_nxt == s.rcv_nxt && s1.state == s.state);
        if !(payload.len() != 0 && seq != s1.rcv_nxt) && payload.len() != 0 && payload.len() <= RX_CAP - s1.rx.len() {
            assert((s1.rx + payload).subrange(0, s.rx.len() as int) =~= s.rx);
            assert((s1.rx + payload).len() - s.rx.len() == payload.len());
        } else {
            assert(s.rx.subrange(0, s.rx.len() as int) =~= s.rx);
        }
    } else {
        assert(s.rx.subrange(0, s.rx.len() as int) =~= s.rx);
        assert(s.rcv_nxt.wrapping_add(0u32) == s.rcv_nxt);
    }
}

} // verus!
