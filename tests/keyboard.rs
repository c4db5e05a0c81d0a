use blog_os::task::keyboard::{Delivery, PollNext, ScancodeStream, SCANCODE_QUEUE_CAPACITY};

#[test]
fn scancodes_arrive_in_order() {
    let mut s = ScancodeStream::new();
    assert_eq!(s.add_scancode(0x1e), Delivery::Queued { wake: false });
    assert_eq!(s.add_scancode(0x30), Delivery::Queued { wake: false });
    assert_eq!(s.poll_next(), PollNext::Ready(0x1e));
    assert_eq!(s.add_scancode(0x2e), Delivery::Queued { wake: false });
    assert_eq!(s.poll_next(), PollNext::Ready(0x30));
    assert_eq!(s.poll_next(), PollNext::Ready(0x2e));
}

#[test]
fn empty_poll_registers_and_push_wakes() {
    let mut s = ScancodeStream::new();
    assert_eq!(s.poll_next(), PollNext::Pending);
    assert_eq!(s.add_scancode(0x9c), Delivery::Queued { wake: true });
    assert_eq!(s.add_scancode(0x1c), Delivery::Queued { wake: false });
    assert_eq!(s.poll_next(), PollNext::Ready(0x9c));
    assert_eq!(s.poll_next(), PollNext::Ready(0x1c));
    assert_eq!(s.poll_next(), PollNext::Pending);
}

#[test]
fn full_queue_drops_excess() {
    let mut s = ScancodeStream::new();
    for i in 0..SCANCODE_QUEUE_CAPACITY {
        assert_eq!(s.add_scancode(i as u8), Delivery::Queued { wake: false });
    }
    assert_eq!(s.add_scancode(0xff), Delivery::Dropped);
    for i in 0..SCANCODE_QUEUE_CAPACITY {
        assert_eq!(s.poll_next(), PollNext::Ready(i as u8));
    }
    assert_eq!(s.poll_next(), PollNext::Pending);
    assert_eq!(s.add_scancode(7), Delivery::Queued { wake: true });
    assert_eq!(s.poll_next(), PollNext::Ready(7));
}
