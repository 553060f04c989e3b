use rauta::outbound::{WriteAction, WriteEvent, WriteQueue};

#[test]
fn short_writes_advance_the_cursor() {
    let mut q = WriteQueue::new();
    q.push(b"abcd".to_vec());
    q.push(b"ef".to_vec());
    assert_eq!(q.unsent(), b"abcd");
    assert_eq!(q.on_event(WriteEvent::Wrote(3)), WriteAction::Offer);
    assert_eq!(q.unsent(), b"d");
    assert_eq!(q.on_event(WriteEvent::WouldBlock), WriteAction::Wait);
    assert_eq!(q.unsent(), b"d");
    assert_eq!(q.on_event(WriteEvent::Wrote(1)), WriteAction::Offer);
    assert_eq!(q.unsent(), b"ef");
    assert_eq!(q.on_event(WriteEvent::Wrote(2)), WriteAction::Wait);
    assert!(q.is_empty());
    assert_eq!(q.unsent(), b"");
}

#[test]
fn failed_write_drops_the_queue() {
    let mut q = WriteQueue::new();
    q.push(b"abc".to_vec());
    q.push(Vec::new());
    q.push(b"d".to_vec());
    assert_eq!(q.on_event(WriteEvent::Failed), WriteAction::Teardown);
    assert!(q.is_empty());
}

#[test]
fn zero_byte_write_waits() {
    let mut q = WriteQueue::new();
    q.push(b"abc".to_vec());
    assert_eq!(q.on_event(WriteEvent::Wrote(0)), WriteAction::Wait);
    assert_eq!(q.unsent(), b"abc");
}
