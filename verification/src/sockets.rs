//! Values of the POSIX socket layer: descriptor sets for `select`, `pollfd` records,
//! IPv4 socket addresses and the mapping of the network service's error codes to `errno`.
use vstd::prelude::*;

verus! {

/// Address family: IPv4.
pub const AF_INET: i32 = 2;
/// Socket type: reliable stream (TCP).
pub const SOCK_STREAM: i32 = 1;
/// Socket type: datagram (UDP).
pub const SOCK_DGRAM: i32 = 2;

/// Invalid argument.
pub const EINVAL: i32 = 22;
/// No free descriptors or resources.
pub const EMFILE: i32 = 24;
/// Not connected.
pub const ENOTCONN: i32 = 107;
/// Connection reset.
pub const ECONNRESET: i32 = 104;
/// Connection refused or timed out.
pub const ETIMEDOUT: i32 = 110;
/// I/O failure.
pub const EIO: i32 = 5;
/// Denied by policy (firewall).
pub const EACCES: i32 = 13;
/// Name not resolved.
pub const EAI_FAIL: i32 = -1;

/// `poll` event: data to read.
pub const POLLIN: u16 = 0x001;
/// `poll` event: can write.
pub const POLLOUT: u16 = 0x004;
/// `poll` event (only in `revents`): the peer closed.
pub const POLLHUP: u16 = 0x010;

/// A descriptor to poll (`struct pollfd`).
#[derive(Clone, Copy, Debug, Structural, PartialEq, Eq)]
pub struct PollFd {
    /// Descriptor.
    pub fd: i32,
    /// Events of interest (`POLLIN` | `POLLOUT`).
    pub events: u16,
    /// Events ready (filled in by `poll`).
    pub revents: u16,
}

/// A set of descriptors 0..32 for `select` (a compact `fd_set`).
#[derive(Clone, Copy, Debug, Default, PartialEq, Eq, Structural)]
pub struct FdSet(u32);

/// Whether bit `fd` of `bits` is set.
pub open spec fn has_fd(bits: u32, fd: int) -> bool {
    0 <= fd < 32 && bits & (1u32 << (fd as u32)) != 0
}

impl FdSet {
    /// The descriptors in the set.
    pub closed spec fn members(&self) -> Set<int> {
        Set::new(|fd: int| has_fd(self.0, fd))
    }

    /// Only descriptors in 0..32 are ever members.
    pub proof fn lemma_members_in_range(&self, fd: int)
        ensures
            self.members().contains(fd) ==> 0 <= fd < 32,
    {
    }

    /// The empty set (`FD_ZERO`).
    pub fn new() -> (s: Self)
        ensures
            s.members() == Set::<int>::empty(),
    {
        assert forall|fd: int| 0 <= fd < 32 implies !has_fd(0u32, fd) by {
            let f = fd as u32;
            assert(0u32 & (1u32 << f) == 0) by (bit_vector);
        }
        let s = FdSet(0);
        assert(s.members() =~= Set::<int>::empty());
        s
    }

    /// Adds a descriptor (`FD_SET`); descriptors outside 0..32 are ignored.
    pub fn set(&mut self, fd: i32)
        ensures
            final(self).members() == if 0 <= fd < 32 { old(self).members().insert(fd as int) } else { old(self).members() },
            final(self).members().contains(fd as int) == (0 <= fd < 32),
    {
        if 0 <= fd && fd < 32 {
            let x = self.0;
            let f = fd as u32;
            self.0 = x | (1u32 << f);
            assert forall|g: int| 0 <= g < 32 implies has_fd(self.0, g) == (g == fd || has_fd(x, g)) by {
                let gg = g as u32;
                assert(((x | (1u32 << f)) & (1u32 << gg) != 0) == (gg == f || x & (1u32 << gg) != 0)) by (bit_vector)
                    requires f < 32, gg < 32;
            }
            assert forall|g: int| #[trigger] self.members().contains(g) == old(self).members().insert(fd as int).contains(g) by {
                if 0 <= g < 32 {
                    let gg = g as u32;
                    assert(f < 32);
                    assert(((x | (1u32 << f)) & (1u32 << gg) != 0) == (gg == f || x & (1u32 << gg) != 0)) by (bit_vector)
                        requires f < 32, gg < 32;
                    assert(self.0 == (x | (1u32 << f)));
                    assert((gg == f) == (g == fd));
                }
            }
            assert(self.members() =~= old(self).members().insert(fd as int));
        }
    }

    /// Whether the descriptor is in the set (`FD_ISSET`).
    pub fn isset(&self, fd: i32) -> (r: bool)
        ensures
            r == self.members().contains(fd as int),
    {
        0 <= fd && fd < 32 && self.0 & (1u32 << (fd as u32)) != 0
    }

    /// Removes a descriptor (`FD_CLR`); descriptors outside 0..32 are ignored.
    pub fn clear(&mut self, fd: i32)
        ensures
            final(self).members() == old(self).members().remove(fd as int),
    {
        if 0 <= fd && fd < 32 {
            let x = self.0;
            let f = fd as u32;
            self.0 = x & !(1u32 << f);
            assert forall|g: int| 0 <= g < 32 implies has_fd(self.0, g) == (g != fd && has_fd(x, g)) by {
                let gg = g as u32;
                assert(((x & !(1u32 << f)) & (1u32 << gg) != 0) == (gg != f && x & (1u32 << gg) != 0)) by (bit_vector)
                    requires f < 32, gg < 32;
            }
        }
        assert(self.members() =~= old(self).members().remove(fd as int));
    }
}

/// IPv4 address and port (`struct sockaddr_in`).
#[derive(Clone, Copy, Debug, PartialEq, Eq)]
pub struct SockAddrIn {
    /// Address.
    pub addr: [u8; 4],
    /// Port (host order).
    pub port: u16,
}

/// The `errno` for an error code of the network service.
pub fn map_remote(code: u32) -> (r: i32)
    ensures
        r == match code {
            1 => EINVAL,
            2 => EMFILE,
            3 => ETIMEDOUT,
            4 => ECONNRESET,
            5 => EAI_FAIL,
            6 => ENOTCONN,
            7 => EACCES,
            _ => EIO,
        },
{
    match code {
        1 => EINVAL,
        2 => EMFILE,
        3 => ETIMEDOUT,
        4 => ECONNRESET,
        5 => EAI_FAIL,
        6 => ENOTCONN,
        7 => EACCES,
        _ => EIO,
    }
}

/// What a descriptor stands for.
#[derive(Clone, Copy, Debug, PartialEq, Eq, Structural)]
pub enum Kind {
    /// Unused.
    Free,
    /// TCP: the connection's id in the network service (`u32::MAX` = created, not connected).
    Tcp(u32),
    /// TCP bound to a local port by `bind`, ready for `listen` and `accept`.
    TcpBound(u16),
    /// UDP: the local port it is bound to.
    Udp(u16),
}

/// Most open descriptors.
pub const MAX_FDS: usize = 16;

/// First local port handed to UDP sockets; ports wrap around to it.
pub const FIRST_UDP_PORT: u16 = 40500;

/// Index of the first free descriptor in `t`, if any.
pub open spec fn first_free(t: Seq<Kind>) -> Option<int>
    decreases t.len(),
{
    if t.len() == 0 {
        None
    } else {
        match first_free(t.drop_last()) {
            Some(i) => Some(i),
            None => if t.last() == Kind::Free { Some(t.len() - 1) } else { None },
        }
    }
}

/// The descriptor `fd` of table `t`, if `fd` names one.
pub open spec fn slot_spec(t: Seq<Kind>, fd: int) -> Option<Kind> {
    if 0 <= fd < t.len() { Some(t[fd]) } else { None }
}

/// The UDP port handed out after `p`.
pub open spec fn next_port(p: u16) -> u16 {
    if p == u16::MAX || p + 1 < FIRST_UDP_PORT { FIRST_UDP_PORT } else { (p + 1) as u16 }
}

proof fn lemma_first_free(t: Seq<Kind>)
    ensures
        first_free(t) matches Some(i) ==> 0 <= i < t.len() && t[i] == Kind::Free && forall|j: int|
            0 <= j < i ==> t[j] != Kind::Free,
        first_free(t) is None ==> forall|j: int| 0 <= j < t.len() ==> t[j] != Kind::Free,
    decreases t.len(),
{
    if t.len() > 0 {
        lemma_first_free(t.drop_last());
        assert forall|j: int| 0 <= j < t.len() - 1 implies t.drop_last()[j] == t[j] by {}
    }
}

/// The descriptor table of a process over the network service: which connection or port
/// each POSIX descriptor stands for, and the next local UDP port.
pub struct Sockets {
    fds: [Kind; 16],
    next_udp_port: u16,
}

impl Sockets {
    /// The descriptors, by number.
    pub closed spec fn table(&self) -> Seq<Kind> {
        self.fds@
    }

    /// The local port the next UDP socket gets.
    pub closed spec fn udp_port(&self) -> u16 {
        self.next_udp_port
    }

    /// An empty table.
    pub fn new() -> (s: Sockets)
        ensures
            s.table() == Seq::new(MAX_FDS as nat, |i: int| Kind::Free),
            s.udp_port() == FIRST_UDP_PORT,
    {
        let s = Sockets { fds: [Kind::Free; 16], next_udp_port: FIRST_UDP_PORT };
        assert(s.table() =~= Seq::new(MAX_FDS as nat, |i: int| Kind::Free));
        s
    }

    /// The descriptor `fd` (`None` outside the table).
    pub fn slot(&self, fd: i32) -> (r: Option<Kind>)
        ensures
            r == slot_spec(self.table(), fd as int),
    {
        if fd < 0 || fd >= 16 {
            return None;
        }
        Some(self.fds[fd as usize])
    }

    /// `socket(domain, type)`: the lowest free descriptor, or `-errno`. `-EINVAL` for a
    /// domain other than IPv4 or an unknown type, `-EMFILE` when no descriptor is free (checked
    /// before the type). A stream socket starts unconnected; a datagram socket gets the next
    /// local port.
    pub fn socket(&mut self, domain: i32, ty: i32) -> (r: i32)
        ensures
            domain != AF_INET ==> r == -EINVAL && *final(self) == *old(self),
            domain == AF_INET && first_free(old(self).table()) is None ==> r == -EMFILE && *final(self)
                == *old(self),
            domain == AF_INET ==> (first_free(old(self).table()) matches Some(fd) ==> {
                if ty == SOCK_STREAM {
                    &&& r == fd
                    &&& final(self).table() == old(self).table().update(fd, Kind::Tcp(u32::MAX))
                    &&& final(self).udp_port() == old(self).udp_port()
                } else if ty == SOCK_DGRAM {
                    &&& r == fd
                    &&& final(self).table() == old(self).table().update(fd, Kind::Udp(old(self).udp_port()))
                    &&& final(self).udp_port() == next_port(old(self).udp_port())
                } else {
                    r == -EINVAL && *final(self) == *old(self)
                }
            }),
    {
        if domain != AF_INET {
            return -EINVAL;
        }
        proof {
            lemma_first_free(self.table());
        }
        let mut fd: usize = 0;
        while fd < 16 && self.fds[fd] != Kind::Free
            invariant
                fd <= 16,
                self.table().len() == 16,
                forall|j: int| 0 <= j < fd ==> self.table()[j] != Kind::Free,
                first_free(self.table()) matches Some(i) ==> fd <= i && i < 16 && self.table()[i] == Kind::Free,
            decreases 16 - fd,
        {
            fd = fd + 1;
        }
        proof {
            lemma_first_free(self.table());
        }
        if fd == 16 {
            return -EMFILE;
        }
        if ty == SOCK_STREAM {
            self.fds[fd] = Kind::Tcp(u32::MAX);
        } else if ty == SOCK_DGRAM {
            let port = self.next_udp_port;
            let next = if port == u16::MAX { 0 } else { port + 1 };
            self.next_udp_port = if next >= FIRST_UDP_PORT { next } else { FIRST_UDP_PORT };
            self.fds[fd] = Kind::Udp(port);
        } else {
            return -EINVAL;
        }
        fd as i32
    }

    /// `bind(fd, addr)`: an unconnected stream socket is bound to the local port `addr.port`
    /// (the address is ignored: there is one interface); `-EINVAL` otherwise.
    pub fn bind(&mut self, fd: i32, addr: &SockAddrIn) -> (r: i32)
        ensures
            slot_spec(old(self).table(), fd as int) == Some(Kind::Tcp(u32::MAX)) ==> r == 0
                && final(self).table() == old(self).table().update(fd as int, Kind::TcpBound(addr.port))
                && final(self).udp_port() == old(self).udp_port(),
            slot_spec(old(self).table(), fd as int) != Some(Kind::Tcp(u32::MAX)) ==> r == -EINVAL
                && *final(self) == *old(self),
    {
        let k = self.slot(fd);
        if k == Some(Kind::Tcp(u32::MAX)) {
            self.fds[fd as usize] = Kind::TcpBound(addr.port);
            0
        } else {
            -EINVAL
        }
    }

    /// `listen(fd, backlog)`: 0 for a bound socket, `-EINVAL` otherwise (the backlog is
    /// ignored: the service takes one incoming connection per `accept`).
    pub fn listen(&self, fd: i32, backlog: i32) -> (r: i32)
        ensures
            r == if slot_spec(self.table(), fd as int) matches Some(Kind::TcpBound(_)) { 0 } else { -EINVAL },
    {
        match self.slot(fd) {
            Some(Kind::TcpBound(_)) => 0,
            _ => -EINVAL,
        }
    }

    /// The connection of a connected stream socket, whose end `close` must announce to the
    /// service before the descriptor is freed.
    pub fn connection(&self, fd: i32) -> (r: Option<u32>)
        ensures
            r == match slot_spec(self.table(), fd as int) {
                Some(Kind::Tcp(c)) => if c != u32::MAX { Some(c) } else { None },
                _ => None,
            },
    {
        match self.slot(fd) {
            Some(Kind::Tcp(c)) => if c != u32::MAX { Some(c) } else { None },
            _ => None,
        }
    }

    /// Records that stream socket `fd` is now connection `conn` (a successful `connect`, or
    /// the new descriptor of an `accept`).
    pub fn set_connected(&mut self, fd: usize, conn: u32)
        requires
            fd < MAX_FDS,
        ensures
            final(self).table() == old(self).table().update(fd as int, Kind::Tcp(conn)),
            final(self).udp_port() == old(self).udp_port(),
    {
        self.fds[fd] = Kind::Tcp(conn);
    }

    /// `close(fd)`: frees the descriptor; `-EINVAL` for a free or unknown one.
    pub fn close(&mut self, fd: i32) -> (r: i32)
        ensures
            match slot_spec(old(self).table(), fd as int) {
                None | Some(Kind::Free) => r == -EINVAL && *final(self) == *old(self),
                _ => r == 0 && final(self).table() == old(self).table().update(fd as int, Kind::Free)
                    && final(self).udp_port() == old(self).udp_port(),
            },
    {
        match self.slot(fd) {
            Some(Kind::Free) | None => return -EINVAL,
            _ => {},
        }
        self.fds[fd as usize] = Kind::Free;
        0
    }
}

/// `errno` for a failed call to the service: its own error code when it sent one, else EIO.
pub fn reply_errno(remote: Option<u32>) -> (r: i32)
    ensures
        r == match remote {
            Some(c) => match c {
                1 => EINVAL,
                2 => EMFILE,
                3 => ETIMEDOUT,
                4 => ECONNRESET,
                5 => EAI_FAIL,
                6 => ENOTCONN,
                7 => EACCES,
                _ => EIO,
            },
            None => EIO,
        },
{
    match remote {
        Some(c) => map_remote(c),
        None => EIO,
    }
}

/// Whether `poll` reports on a descriptor of kind `k`: connected stream sockets and datagram
/// sockets; the others are passed over.
pub open spec fn pollable(k: Option<Kind>) -> bool {
    match k {
        Some(Kind::Tcp(c)) => c != u32::MAX,
        Some(Kind::Udp(_)) => true,
        _ => false,
    }
}

/// Events `poll` reports for a descriptor of kind `k` asked for `events`, given what the
/// service answered about it: `waiting` when data is ready, `closed` when the peer of a
/// stream closed (both false when it was not asked or did not answer).
pub open spec fn revents_spec(k: Option<Kind>, events: u16, waiting: bool, closed: bool) -> u16 {
    if !pollable(k) {
        0
    } else {
        let asked_in = events & POLLIN != 0;
        let is_tcp = k matches Some(Kind::Tcp(_));
        let r1: u16 = if asked_in && waiting { POLLIN } else { 0 };
        let r2: u16 = if asked_in && is_tcp && closed { r1 | POLLIN | POLLHUP } else { r1 };
        if events & POLLOUT != 0 { r2 | POLLOUT } else { r2 }
    }
}

/// The events `poll` reports for one descriptor (see `revents_spec`).
pub fn poll_revents(k: Option<Kind>, events: u16, waiting: bool, closed: bool) -> (r: u16)
    ensures
        r == revents_spec(k, events, waiting, closed),
{
    let mut r: u16 = 0;
    let tcp = match k {
        Some(Kind::Tcp(c)) => {
            if c == u32::MAX {
                return 0;
            }
            true
        },
        Some(Kind::Udp(_)) => false,
        _ => return 0,
    };
    if events & POLLIN != 0 {
        if waiting {
            r = POLLIN;
        }
        if tcp && closed {
            r = r | POLLIN | POLLHUP;
        }
    }
    if events & POLLOUT != 0 {
        r = r | POLLOUT;
    }
    r
}

/// `poll` records asking for input on each descriptor of `set` below `n`, in increasing order.
pub open spec fn select_spec(n: int, set: Set<int>) -> Seq<PollFd>
    decreases n,
{
    if n <= 0 {
        Seq::empty()
    } else {
        let p = select_spec(n - 1, set);
        if set.contains(n - 1) {
            p.push(PollFd { fd: (n - 1) as i32, events: POLLIN, revents: 0 })
        } else {
            p
        }
    }
}

/// The `poll` records that `select(nfds, readfds)` waits on: descriptors of `readfds` below
/// `nfds` (and below `MAX_FDS`).
pub fn select_fds(nfds: i32, readfds: &FdSet) -> (p: Vec<PollFd>)
    ensures
        p@ == select_spec(if nfds < MAX_FDS as i32 { nfds as int } else { MAX_FDS as int }, readfds.members()),
{
    let top: i32 = if nfds < 16 { nfds } else { 16 };
    let mut p: Vec<PollFd> = Vec::new();
    let mut fd: i32 = 0;
    while fd < top
        invariant
            0 <= fd,
            top <= 16,
            top >= 0 ==> fd <= top,
            top < 0 ==> fd == 0,
            p@ == select_spec(fd as int, readfds.members()),
        decreases top - fd,
    {
        if readfds.isset(fd) {
            p.push(PollFd { fd, events: POLLIN, revents: 0 });
        }
        fd = fd + 1;
    }
    proof {
        assert(top == (if nfds < MAX_FDS as i32 { nfds as int } else { MAX_FDS as int }));
        if top < 0 {
            assert(select_spec(top as int, readfds.members()) == Seq::<PollFd>::empty());
            assert(select_spec(0, readfds.members()) == Seq::<PollFd>::empty());
        }
    }
    p
}

/// Descriptors of `pfds` (within 0..32) that reported input or a hang-up.
pub open spec fn ready_set(pfds: Seq<PollFd>) -> Set<int> {
    Set::new(
        |fd: int|
            0 <= fd < 32 && exists|i: int|
                0 <= i < pfds.len() && #[trigger] pfds[i].fd == fd && pfds[i].revents & (POLLIN | POLLHUP) != 0,
    )
}

/// The set `select` hands back: the polled descriptors that are ready to read.
pub fn select_ready(pfds: &[PollFd]) -> (s: FdSet)
    ensures
        s.members() == ready_set(pfds@),
{
    let mut s = FdSet::new();
    let mut i: usize = 0;
    while i < pfds.len()
        invariant
            i <= pfds@.len(),
            s.members() == ready_set(pfds@.take(i as int)),
        decreases pfds@.len() - i,
    {
        let p = pfds[i];
        let ghost before = s.members();
        if p.revents & (POLLIN | POLLHUP) != 0 {
            s.set(p.fd);
        }
        proof {
            let t = pfds@.take(i + 1);
            assert forall|fd: int| #[trigger] s.members().contains(fd) == ready_set(t).contains(fd) by {
                if ready_set(t).contains(fd) {
                    let j = choose|j: int|
                        0 <= j < t.len() && #[trigger] t[j].fd == fd && t[j].revents & (POLLIN | POLLHUP) != 0;
                    if j < i {
                        assert(pfds@.take(i as int)[j] == t[j]);
                    }
                }
                if before.contains(fd) {
                    let j = choose|j: int|
                        0 <= j < i && #[trigger] pfds@.take(i as int)[j].fd == fd && pfds@.take(i as int)[j].revents
                            & (POLLIN | POLLHUP) != 0;
                    assert(t[j] == pfds@.take(i as int)[j]);
                }
                if p.revents & (POLLIN | POLLHUP) != 0 && fd == p.fd && 0 <= fd < 32 {
                    assert(t[i as int] == p);
                }
            }
            assert(s.members() =~= ready_set(t));
        }
        i = i + 1;
    }
    proof {
        assert(pfds@.take(pfds@.len() as int) =~= pfds@);
    }
    s
}

} // verus!
