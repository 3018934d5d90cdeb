//! The in-process ring.

use dsline::error::{ChannelError, DslineError};
use dsline::spsc::{Backpressure, SpscBytesRing, SpscConfig};
use std::time::Duration;

fn ring(capacity: usize, slot_size: usize) -> SpscBytesRing {
    SpscBytesRing::new(SpscConfig {
        capacity,
        slot_size,
        backpressure: Backpressure::Raise,
        timeout: None,
    })
    .expect("valid config")
}

#[test]
fn sends_and_receives_bytes_in_order() {
    let mut ring = ring(4, 16);
    ring.send(b"one").expect("send one");
    ring.send(b"two").expect("send two");

    assert_eq!(ring.recv().expect("recv one"), b"one");
    assert_eq!(ring.recv().expect("recv two"), b"two");
}

#[test]
fn rejects_oversized_messages() {
    let mut ring = ring(4, 3);
    let err = ring.send(b"four").expect_err("message too large");

    assert_eq!(
        err,
        DslineError::Channel(ChannelError::MessageTooLarge {
            len: 4,
            slot_size: 3
        })
    );
}

#[test]
fn raise_backpressure_reports_full() {
    let mut ring = ring(1, 8);
    ring.send(b"a").expect("first send");

    assert_eq!(
        ring.send(b"b").expect_err("full"),
        DslineError::Channel(ChannelError::BufferFull)
    );
}

#[test]
fn block_backpressure_times_out_until_shared_storage_exists() {
    let mut ring = SpscBytesRing::new(SpscConfig {
        capacity: 1,
        slot_size: 8,
        backpressure: Backpressure::Block,
        timeout: Some(Duration::from_millis(1)),
    })
    .expect("valid config");
    ring.send(b"a").expect("first send");

    assert_eq!(
        ring.send(b"b").expect_err("timeout"),
        DslineError::Channel(ChannelError::BufferFull)
    );
}

#[test]
fn detects_checksum_mismatch() {
    let mut ring = ring(1, 8);
    ring.send(b"a").expect("send");
    ring.corrupt_next_checksum_for_test();

    assert_eq!(
        ring.recv().expect_err("corrupted"),
        DslineError::Channel(ChannelError::CorruptedMessage)
    );
}

#[test]
fn close_prevents_send_and_drains_existing_messages() {
    let mut ring = ring(2, 8);
    ring.send(b"a").expect("send");
    ring.close();

    assert_eq!(
        ring.send(b"b").expect_err("closed"),
        DslineError::Channel(ChannelError::Closed)
    );
    assert_eq!(ring.recv().expect("drain"), b"a");
    assert_eq!(
        ring.recv().expect_err("closed empty"),
        DslineError::Channel(ChannelError::Closed)
    );
}

#[test]
fn sequence_wraps_without_panicking() {
    let mut ring = ring(2, 8);
    ring.set_next_seq_for_test(u64::MAX);
    ring.send(b"a").expect("send max");
    ring.send(b"b").expect("send wrapped");

    assert_eq!(ring.next_seq_for_test(), 1);
}

#[test]
fn ring_checks_its_configuration() {
    let config = SpscConfig {
        capacity: 0,
        slot_size: 8,
        backpressure: Backpressure::Raise,
        timeout: None,
    };
    assert_eq!(
        SpscBytesRing::new(config.clone()).expect_err("capacity"),
        DslineError::Channel(ChannelError::InvalidConfig(
            "capacity must be greater than zero"
        ))
    );
    let config = SpscConfig {
        capacity: 1,
        slot_size: 0,
        ..config
    };
    assert_eq!(
        SpscBytesRing::new(config).expect_err("slot size"),
        DslineError::Channel(ChannelError::InvalidConfig(
            "slot_size must be greater than zero"
        ))
    );
}

#[test]
fn ring_reports_its_state() {
    let mut ring = ring(2, 8);
    assert_eq!(ring.capacity(), 2);
    assert!(ring.is_empty());
    assert!(!ring.is_closed());
    assert_eq!(
        ring.recv().expect_err("empty"),
        DslineError::Channel(ChannelError::BufferEmpty)
    );
    ring.send(b"").expect("send");
    assert_eq!(ring.len(), 1);
    ring.close();
    assert!(ring.is_closed());
    assert_eq!(ring.recv().expect("recv"), b"");
}

#[test]
fn ring_drops_the_newest_or_the_oldest() {
    let mut newest = SpscBytesRing::new(SpscConfig {
        capacity: 1,
        slot_size: 8,
        backpressure: Backpressure::DropNewest,
        timeout: None,
    })
    .expect("ring");
    newest.send(b"a").expect("send");
    newest.send(b"b").expect("discarded");
    assert_eq!(newest.recv().expect("recv"), b"a");
    assert!(newest.is_empty());

    let mut oldest = SpscBytesRing::new(SpscConfig {
        capacity: 1,
        slot_size: 8,
        backpressure: Backpressure::DropOldest,
        timeout: None,
    })
    .expect("ring");
    oldest.send(b"a").expect("send");
    oldest.send(b"b").expect("send");
    assert_eq!(oldest.recv().expect("recv"), b"b");
    assert!(oldest.is_empty());
}

#[test]
fn only_a_policy_to_wait_has_a_limit() {
    let limit = Some(Duration::from_millis(7));
    for (backpressure, expected) in [
        (Backpressure::Block, limit),
        (Backpressure::Raise, None),
        (Backpressure::DropNewest, None),
        (Backpressure::DropOldest, None),
    ] {
        let config = SpscConfig {
            capacity: 1,
            slot_size: 1,
            backpressure,
            timeout: limit,
        };
        assert_eq!(config.wait_limit(), expected);
    }
}
