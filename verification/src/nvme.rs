//! The decisions of the NVMe block driver: which requests are served, the commands built for
//! them, the queue positions and phase bit, and the reply owed for each completion. The
//! register and DMA accesses, and the channel, stay with the driver that calls these.
use vstd::prelude::*;

verus! {

/// Most sectors one request may move (3584 bytes, one DMA page).
pub const MAX_SECTORS: u32 = 7;

/// Entries per queue.
pub const QD: u16 = 64;

/// Requests that may be in flight at once.
pub const SLOTS: usize = 4;

/// Opcode of an NVMe read.
pub const OPC_READ: u8 = 0x02;

/// Opcode of an NVMe write.
pub const OPC_WRITE: u8 = 0x01;

/// Whether a read of `count` sectors from `sector` is served on a namespace of `nsze` sectors.
pub open spec fn read_ok(sector: u64, count: u32, nsze: u64) -> bool {
    1 <= count <= MAX_SECTORS && sector + count <= nsze
}

/// A read is served when it moves 1 to [`MAX_SECTORS`] sectors that all lie in the namespace.
pub fn check_request(sector: u64, count: u32, nsze: u64) -> (r: bool)
    ensures
        r <==> read_ok(sector, count, nsze),
{
    if count == 0 || count > MAX_SECTORS {
        return false;
    }
    sector <= nsze && (count as u64) <= nsze - sector
}

/// A write is served on the same terms as a read, and only when it carries exactly `count`
/// sectors of data.
pub fn check_write(sector: u64, count: u32, bytes: usize, nsze: u64) -> (r: bool)
    ensures
        r <==> read_ok(sector, count, nsze) && bytes == count * 512,
{
    check_request(sector, count, nsze) && bytes == (count as usize) * 512
}

/// A submission entry with opcode `opc`, namespace `nsid` and the page `prp1`.
pub open spec fn sqe_spec(opc: u8, nsid: u32, prp1: u64) -> Seq<u32> {
    Seq::new(16, |i: int| if i == 0 { opc as u32 } else if i == 1 { nsid } else if i == 6 { (prp1 % 0x1_0000_0000) as u32 } else if i == 7 { (prp1 / 0x1_0000_0000) as u32 } else { 0 })
}

/// The zeroed submission entry with opcode, namespace and first page.
pub fn sqe(opc: u8, nsid: u32, prp1: u64) -> (e: [u32; 16])
    ensures
        e@ == sqe_spec(opc, nsid, prp1),
{
    let mut e = [0u32; 16];
    e[0] = opc as u32;
    e[1] = nsid;
    e[6] = (prp1 % 0x1_0000_0000) as u32;
    e[7] = (prp1 / 0x1_0000_0000) as u32;
    assert(e@ =~= sqe_spec(opc, nsid, prp1));
    e
}

/// The entry of a read or write of `count` sectors from `sector` into the page `prp1`, on
/// namespace 1: the start sector in words 10 and 11, the sector count less one in word 12.
pub open spec fn rw_spec(opc: u8, prp1: u64, sector: u64, count: u32) -> Seq<u32> {
    sqe_spec(opc, 1, prp1).update(10, (sector % 0x1_0000_0000) as u32).update(11, (sector / 0x1_0000_0000) as u32).update(
        12,
        (count - 1) as u32,
    )
}

/// The command for a served read (`OPC_READ`) or write (`OPC_WRITE`).
pub fn rw_command(opc: u8, prp1: u64, sector: u64, count: u32) -> (e: [u32; 16])
    requires
        1 <= count,
    ensures
        e@ == rw_spec(opc, prp1, sector, count),
{
    let mut e = sqe(opc, 1, prp1);
    e[10] = (sector % 0x1_0000_0000) as u32;
    e[11] = (sector / 0x1_0000_0000) as u32;
    e[12] = count - 1;
    e
}

/// Positions of one submission/completion queue pair.
pub struct QueueState {
    /// Next submission slot.
    pub tail: u16,
    /// Next completion slot.
    pub head: u16,
    /// Phase the next completion will carry (0 or 1).
    pub phase: u8,
}

impl QueueState {
    /// Both positions lie in the queue and the phase is a bit.
    pub open spec fn wf(&self) -> bool {
        self.tail < QD && self.head < QD && self.phase <= 1
    }

    /// A fresh pair: both positions at 0, expecting phase 1.
    pub fn new() -> (q: QueueState)
        ensures
            q.wf(),
            q.tail == 0 && q.head == 0 && q.phase == 1,
    {
        QueueState { tail: 0, head: 0, phase: 1 }
    }

    /// Takes the submission slot for `entry`, tagged with command id `cid`; returns the slot
    /// and the tagged entry to store there. The tail moves on, wrapping at [`QD`].
    pub fn submit(&mut self, entry: [u32; 16], cid: u16) -> (r: (u16, [u32; 16]))
        requires
            old(self).wf(),
        ensures
            final(self).wf(),
            r.0 == old(self).tail,
            final(self).tail == (old(self).tail + 1) % (QD as int),
            final(self).head == old(self).head && final(self).phase == old(self).phase,
            r.1@ == entry@.update(0, entry@[0] | ((cid as u32) << 16u32)),
    {
        let slot = self.tail;
        let mut e = entry;
        e[0] = e[0] | ((cid as u32) << 16u32);
        self.tail = (self.tail + 1) % QD;
        assert(e@ =~= entry@.update(0, entry@[0] | ((cid as u32) << 16u32)));
        (slot, e)
    }

    /// Reads the completion word `dw3` at the head: when its phase bit is the one expected,
    /// the completion is taken (its command id and status are returned), the head moves on
    /// and the phase flips each time the head wraps; otherwise nothing changes.
    pub fn complete(&mut self, dw3: u32) -> (r: Option<(u16, u16)>)
        requires
            old(self).wf(),
        ensures
            final(self).wf(),
            final(self).tail == old(self).tail,
            (final(self).head, final(self).phase, r) == complete_spec(old(self).head, old(self).phase, dw3),
    {
        if (dw3 >> 16u32) & 1 != self.phase as u32 {
            return None;
        }
        let cid = (dw3 & 0xffff) as u16;
        let status = (dw3 >> 17u32) as u16;
        self.head = (self.head + 1) % QD;
        if self.head == 0 {
            let p = self.phase;
            assert(p ^ 1u8 <= 1) by (bit_vector)
                requires p <= 1;
            self.phase = p ^ 1;
        }
        Some((cid, status))
    }
}

/// What taking completion word `dw3` does to the head and phase, and what it yields.
pub open spec fn complete_spec(head: u16, phase: u8, dw3: u32) -> (u16, u8, Option<(u16, u16)>) {
    if (dw3 >> 16u32) & 1 != phase as u32 {
        (head, phase, None)
    } else {
        let h = ((head + 1) % (QD as int)) as u16;
        (h, if h == 0 { phase ^ 1 } else { phase }, Some(((dw3 & 0xffff) as u16, (dw3 >> 17u32) as u16)))
    }
}

/// The reply owed for a finished read or write.
#[derive(Clone, Copy, Debug, PartialEq, Eq, Structural)]
pub enum IoReply {
    /// The device failed it: the error code sent back (`0x10` plus the low status bits).
    Failed(u32),
    /// The write is done.
    Written,
    /// The read's data is ready.
    Read,
}

/// The reply for a command of the given kind that completed with `status`.
pub open spec fn io_reply_spec(write: bool, status: u16) -> IoReply {
    if status != 0 {
        IoReply::Failed(0x10 | (status & 0xf) as u32)
    } else if write {
        IoReply::Written
    } else {
        IoReply::Read
    }
}

/// A status other than 0 is an error whose code keeps the status's low four bits.
pub fn io_reply(write: bool, status: u16) -> (r: IoReply)
    ensures
        r == io_reply_spec(write, status),
{
    if status != 0 {
        IoReply::Failed(0x10 | (status & 0xf) as u32)
    } else if write {
        IoReply::Written
    } else {
        IoReply::Read
    }
}

/// The first free request slot, if any.
pub fn first_free(free: &[bool; SLOTS]) -> (r: Option<usize>)
    ensures
        match r {
            Some(i) => i < SLOTS && free@[i as int] && forall|j: int| 0 <= j < i ==> !free@[j],
            None => forall|j: int| 0 <= j < SLOTS ==> !free@[j],
        },
{
    let mut i: usize = 0;
    while i < SLOTS
        invariant
            i <= SLOTS,
            forall|j: int| 0 <= j < i ==> !free@[j],
        decreases SLOTS - i,
    {
        if free[i] {
            return Some(i);
        }
        i += 1;
    }
    None
}

/// After [`QD`] completions taken in a row from any head, the head is back where it was and
/// the phase has flipped exactly once.
pub proof fn lemma_phase_flips_once_per_lap(head: u16, phase: u8)
    requires
        head < QD,
        phase <= 1,
    ensures
        laps(head, phase, QD as nat) == (head, phase ^ 1u8),
{
    lemma_laps(head, phase, QD as nat);
}

/// Head and phase after `n` completions taken from `head`.
pub open spec fn laps(head: u16, phase: u8, n: nat) -> (u16, u8)
    decreases n,
{
    if n == 0 {
        (head, phase)
    } else {
        let h = ((head + 1) % (QD as int)) as u16;
        laps(h, if h == 0 { phase ^ 1u8 } else { phase }, (n - 1) as nat)
    }
}

proof fn lemma_laps(head: u16, phase: u8, n: nat)
    requires
        head < QD,
        phase <= 1,
        n == QD,
    ensures
        laps(head, phase, n) == (head, phase ^ 1u8),
{
    lemma_laps_gen(head, phase, n);
}

/// Taking `n` completions from `head` (with `n <= QD`) lands at `(head + n) % QD`, the phase
/// flipped once if the head passed the end of the queue and kept otherwise.
proof fn lemma_laps_gen(head: u16, phase: u8, n: nat)
    requires
        head < QD,
        phase <= 1,
        n <= QD,
    ensures
        laps(head, phase, n) == (((head + n) % (QD as int)) as u16, if head + n >= QD { phase ^ 1u8 } else { phase }),
    decreases n,
{
    if n > 0 {
        let h = ((head + 1) % (QD as int)) as u16;
        let p = if h == 0 { phase ^ 1u8 } else { phase };
        assert(p <= 1) by (bit_vector)
            requires p == phase ^ 1u8 || p == phase, phase <= 1;
        if head + 1 < QD {
            lemma_laps_gen(h, p, (n - 1) as nat);
        } else {
            assert(h == 0);
            assert((p ^ 1u8) == phase) by (bit_vector)
                requires p == phase ^ 1u8;
            lemma_laps_gen(h, p, (n - 1) as nat);
            assert(((h + (n - 1)) % (QD as int)) == ((head + n) % (QD as int)));
        }
    }
}

} // verus!
