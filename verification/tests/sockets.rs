use lib::sockets::{
    map_remote, poll_revents, reply_errno, select_fds, select_ready, FdSet, Kind, PollFd, SockAddrIn,
    Sockets, AF_INET, EACCES, EAI_FAIL, ECONNRESET, EINVAL, EIO, EMFILE, ENOTCONN, ETIMEDOUT, MAX_FDS,
    POLLHUP, POLLIN, POLLOUT, SOCK_DGRAM, SOCK_STREAM,
};

#[test]
fn fd_set_holds_descriptors() {
    let mut s = FdSet::new();
    assert!(!s.isset(3));
    s.set(3);
    s.set(31);
    assert!(s.isset(3));
    assert!(s.isset(31));
    assert!(!s.isset(4));
    s.clear(3);
    assert!(!s.isset(3));
    assert!(s.isset(31));
    s.set(40);
    s.set(-1);
    assert!(!s.isset(40));
    assert!(!s.isset(-1));
}

#[test]
fn remote_errors_map_to_errno() {
    assert_eq!(map_remote(1), EINVAL);
    assert_eq!(map_remote(2), EMFILE);
    assert_eq!(map_remote(3), ETIMEDOUT);
    assert_eq!(map_remote(4), ECONNRESET);
    assert_eq!(map_remote(5), EAI_FAIL);
    assert_eq!(map_remote(6), ENOTCONN);
    assert_eq!(map_remote(7), EACCES);
    assert_eq!(map_remote(99), EIO);
}

#[test]
fn sockets_take_the_lowest_free_descriptor() {
    let mut t = Sockets::new();
    assert_eq!(t.socket(AF_INET, SOCK_STREAM), 0);
    assert_eq!(t.socket(AF_INET, SOCK_DGRAM), 1);
    assert_eq!(t.slot(0), Some(Kind::Tcp(u32::MAX)));
    assert_eq!(t.slot(1), Some(Kind::Udp(40500)));
    assert_eq!(t.socket(AF_INET, SOCK_DGRAM), 2);
    assert_eq!(t.slot(2), Some(Kind::Udp(40501)));
    assert_eq!(t.close(0), 0);
    assert_eq!(t.socket(AF_INET, SOCK_STREAM), 0);
    assert_eq!(t.slot(-1), None);
    assert_eq!(t.slot(MAX_FDS as i32), None);
}

#[test]
fn sockets_reject_bad_arguments() {
    let mut t = Sockets::new();
    assert_eq!(t.socket(10, SOCK_STREAM), -EINVAL);
    assert_eq!(t.socket(AF_INET, 99), -EINVAL);
    for i in 0..MAX_FDS {
        assert_eq!(t.socket(AF_INET, SOCK_STREAM), i as i32);
    }
    // the table is full: that is reported before the type is looked at
    assert_eq!(t.socket(AF_INET, 99), -EMFILE);
    assert_eq!(t.close(20), -EINVAL);
    let mut u = Sockets::new();
    assert_eq!(u.close(3), -EINVAL);
}

#[test]
fn bind_and_listen_need_an_unconnected_stream() {
    let mut t = Sockets::new();
    let s = t.socket(AF_INET, SOCK_STREAM);
    let d = t.socket(AF_INET, SOCK_DGRAM);
    let addr = SockAddrIn { addr: [0, 0, 0, 0], port: 8080 };
    assert_eq!(t.listen(s, 4), -EINVAL);
    assert_eq!(t.bind(d, &addr), -EINVAL);
    assert_eq!(t.bind(s, &addr), 0);
    assert_eq!(t.slot(s), Some(Kind::TcpBound(8080)));
    assert_eq!(t.listen(s, 4), 0);
    assert_eq!(t.bind(s, &addr), -EINVAL);
    t.set_connected(5, 7);
    assert_eq!(t.connection(5), Some(7));
    assert_eq!(t.connection(s), None);
    assert_eq!(t.close(s), 0);
    assert_eq!(t.slot(s), Some(Kind::Free));
}

#[test]
fn udp_ports_wrap_back_to_the_first_one() {
    let mut t = Sockets::new();
    for _ in 0..(65535 - 40500 + 1) {
        let fd = t.socket(AF_INET, SOCK_DGRAM);
        assert_eq!(t.close(fd), 0);
    }
    let fd = t.socket(AF_INET, SOCK_DGRAM);
    assert_eq!(t.slot(fd), Some(Kind::Udp(40500)));
}

#[test]
fn poll_reports_by_kind() {
    let tcp = Some(Kind::Tcp(3));
    assert_eq!(poll_revents(tcp, POLLIN | POLLOUT, true, false), POLLIN | POLLOUT);
    assert_eq!(poll_revents(tcp, POLLIN, false, true), POLLIN | POLLHUP);
    assert_eq!(poll_revents(tcp, POLLOUT, true, true), POLLOUT);
    assert_eq!(poll_revents(Some(Kind::Udp(9)), POLLIN, true, true), POLLIN);
    assert_eq!(poll_revents(Some(Kind::Tcp(u32::MAX)), POLLIN | POLLOUT, true, false), 0);
    assert_eq!(poll_revents(Some(Kind::TcpBound(1)), POLLOUT, false, false), 0);
    assert_eq!(poll_revents(None, POLLOUT, false, false), 0);
}

#[test]
fn select_polls_the_set_and_keeps_the_ready_ones() {
    let mut r = FdSet::new();
    r.set(1);
    r.set(4);
    r.set(20);
    let p = select_fds(10, &r);
    assert_eq!(p.len(), 2);
    assert_eq!((p[0].fd, p[0].events, p[0].revents), (1, POLLIN, 0));
    assert_eq!(p[1].fd, 4);
    assert!(select_fds(-3, &r).is_empty());
    assert_eq!(select_fds(100, &r).len(), 2);
    let polled = [
        PollFd { fd: 1, events: POLLIN, revents: 0 },
        PollFd { fd: 4, events: POLLIN, revents: POLLIN | POLLHUP },
    ];
    let ready = select_ready(&polled);
    assert!(!ready.isset(1));
    assert!(ready.isset(4));
}

#[test]
fn failed_calls_map_to_errno() {
    assert_eq!(reply_errno(Some(3)), ETIMEDOUT);
    assert_eq!(reply_errno(Some(42)), EIO);
    assert_eq!(reply_errno(None), EIO);
}
