use lib::nvme::{check_request, check_write, first_free, io_reply, rw_command, sqe, IoReply, QueueState, OPC_READ, QD};

#[test]
fn requests_within_the_namespace_and_size_are_served() {
    assert!(check_request(0, 1, 100));
    assert!(check_request(93, 7, 100));
    assert!(!check_request(94, 7, 100));
    assert!(!check_request(0, 0, 100));
    assert!(!check_request(0, 8, 100));
    assert!(!check_request(u64::MAX, 1, u64::MAX));
    assert!(check_write(10, 2, 1024, 100));
    assert!(!check_write(10, 2, 1000, 100));
}

#[test]
fn commands_carry_sector_and_count() {
    let e = sqe(6, 0, 0x1234_5678_9abc_def0);
    assert_eq!(e[0], 6);
    assert_eq!(e[6], 0x9abc_def0);
    assert_eq!(e[7], 0x1234_5678);
    let r = rw_command(OPC_READ, 0x2000, 0x1_0000_0005, 3);
    assert_eq!(r[0], 2);
    assert_eq!(r[1], 1);
    assert_eq!(r[6], 0x2000);
    assert_eq!(r[10], 5);
    assert_eq!(r[11], 1);
    assert_eq!(r[12], 2);
}

#[test]
fn queue_wraps_and_phase_flips() {
    let mut q = QueueState::new();
    let (slot, e) = q.submit([1u32; 16], 3);
    assert_eq!(slot, 0);
    assert_eq!(e[0], 1 | (3 << 16));
    assert_eq!(q.tail, 1);
    // a completion with the wrong phase is not taken
    assert_eq!(q.complete(0), None);
    assert_eq!(q.head, 0);
    for i in 0..QD {
        let dw3 = (1u32 << 16) | (2u32 << 17) | i as u32;
        assert_eq!(q.complete(dw3), Some((i, 2)));
    }
    assert_eq!(q.head, 0);
    assert_eq!(q.phase, 0);
    assert_eq!(q.complete(1u32 << 16), None);
    assert_eq!(q.complete(7), Some((7, 0)));
}

#[test]
fn replies_follow_the_status() {
    assert_eq!(io_reply(true, 0), IoReply::Written);
    assert_eq!(io_reply(false, 0), IoReply::Read);
    assert_eq!(io_reply(false, 0x21), IoReply::Failed(0x11));
    assert_eq!(first_free(&[false, false, true, true]), Some(2));
    assert_eq!(first_free(&[false; 4]), None);
}
