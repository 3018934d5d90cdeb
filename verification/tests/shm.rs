//! Slot regions and the channel over them.

use dsline::binding::{error_class, is_blank_name, ErrorClass};
use dsline::channel::ShmSpscChannel;
use dsline::chunk::sequence_precedes;
use dsline::error::{ChannelError, DslineError, ProtocolError, TransportError};
use dsline::frame::{decode_frame, encode_frame, FrameKind, CHUNK_METADATA_LEN, FRAME_HEADER_LEN};
use dsline::region::FixedSlotRegion;
use dsline::slot::SlotState;
use dsline::spsc::{Backpressure, SendEvent, SendStep, SpscConfig};
use dsline::storage::{
    existing_storage_len, slot_offset, storage_len, FixedSlotStorage, MemorySlotStorage,
};
use std::time::Duration;

#[test]
fn writes_reads_and_releases_fixed_slot() {
    let frame = encode_frame(FrameKind::Bytes, 0, 7, 0, 0, &[], b"hello").expect("encode");
    let mut region = FixedSlotRegion::new(2, 128).expect("region");

    region
        .write_committed(0, 7, &frame)
        .expect("write committed");
    assert_eq!(region.state(0).expect("state"), SlotState::Committed);

    let snapshot = region.read_committed(0).expect("read committed");
    assert_eq!(snapshot.state, SlotState::Pinned);
    assert_eq!(snapshot.seq, 7);
    assert_eq!(
        decode_frame(&snapshot.data).expect("decode").payload,
        b"hello"
    );
    assert_eq!(region.state(0).expect("state"), SlotState::Pinned);

    region.release_pinned(0).expect("release");
    assert_eq!(region.state(0).expect("state"), SlotState::Free);
}

#[test]
fn rejects_write_to_non_free_slot() {
    let frame = encode_frame(FrameKind::Bytes, 0, 1, 0, 0, &[], b"a").expect("encode");
    let mut region = FixedSlotRegion::new(1, 128).expect("region");
    region.write_committed(0, 1, &frame).expect("write");

    assert_eq!(
        region.write_committed(0, 2, &frame).expect_err("full"),
        DslineError::Channel(ChannelError::BufferFull)
    );
}

#[test]
fn rejects_oversized_frame() {
    let mut region = FixedSlotRegion::new(1, 4).expect("region");

    assert_eq!(
        region
            .write_committed(0, 1, b"abcde")
            .expect_err("too large"),
        DslineError::Channel(ChannelError::MessageTooLarge {
            len: 5,
            slot_size: 4
        })
    );
}

#[test]
fn marks_corrupted_slot() {
    let mut region = FixedSlotRegion::new(1, 64).expect("region");

    region.mark_corrupted(0).expect("mark");

    assert_eq!(region.state(0).expect("state"), SlotState::Corrupted);
}

fn channel(capacity: usize, slot_size: usize) -> ShmSpscChannel {
    ShmSpscChannel::new(SpscConfig {
        capacity,
        slot_size,
        backpressure: Backpressure::Raise,
        timeout: None,
    })
    .expect("channel")
}

#[test]
fn channel_sends_and_receives_bytes_in_order() {
    let mut channel = channel(2, 16);

    channel.send(b"one").expect("send one");
    channel.send(b"two").expect("send two");

    assert_eq!(channel.recv().expect("recv one"), b"one");
    assert_eq!(channel.recv().expect("recv two"), b"two");
    assert!(channel.is_empty());
}

#[test]
fn channel_sends_and_receives_chunked_message() {
    let mut channel = channel(4, 64);
    let payload = vec![b'x'; 80];

    channel.send(&payload).expect("send chunked");

    assert_eq!(channel.len(), 4);
    let message = channel.recv_with_seq().expect("recv chunked");
    assert_eq!(message.seq, 0);
    assert_eq!(message.payload, payload);
    assert!(channel.is_empty());
    assert_eq!(channel.expected_recv_sequence(), 1);
}

#[test]
fn channel_rejects_chunked_message_larger_than_capacity() {
    let mut channel = channel(2, 64);
    let payload = vec![b'x'; 100];

    assert_eq!(
        channel.send(&payload).expect_err("too large"),
        DslineError::Channel(ChannelError::MessageTooLarge {
            len: 100,
            slot_size: 64
        })
    );
}

#[test]
fn channel_returns_sequence_with_message() {
    let mut channel = channel(2, 16);

    channel.send(b"one").expect("send one");
    channel.send(b"two").expect("send two");

    let first = channel.recv_with_seq().expect("recv one");
    let second = channel.recv_with_seq().expect("recv two");

    assert_eq!(first.seq, 0);
    assert_eq!(first.payload, b"one");
    assert_eq!(second.seq, 1);
    assert_eq!(second.payload, b"two");
    assert_eq!(channel.next_sequence(), 2);
    assert_eq!(channel.expected_recv_sequence(), 2);
    assert_eq!(channel.last_received_sequence(), Some(1));
}

#[test]
fn channel_sequence_wraps() {
    let mut channel = channel(2, 16);
    channel.set_next_sequence_for_test(u64::MAX);
    channel.set_expected_recv_sequence_for_test(u64::MAX);

    channel.send(b"last").expect("send max");
    channel.send(b"zero").expect("send wrapped");

    assert_eq!(channel.next_sequence(), 1);
    assert_eq!(channel.recv_with_seq().expect("recv max").seq, u64::MAX);
    assert_eq!(channel.recv_with_seq().expect("recv zero").seq, 0);
    assert_eq!(channel.expected_recv_sequence(), 1);
    assert_eq!(channel.last_received_sequence(), Some(0));
}

#[test]
fn channel_wraps_head_and_tail() {
    let mut channel = channel(2, 16);

    channel.send(b"one").expect("send one");
    assert_eq!(channel.recv().expect("recv one"), b"one");
    channel.send(b"two").expect("send two");
    channel.send(b"three").expect("send three");

    assert_eq!(channel.recv().expect("recv two"), b"two");
    assert_eq!(channel.recv().expect("recv three"), b"three");
}

#[test]
fn channel_keeps_payload_slot_size_separate_from_frame_slot_size() {
    let channel = channel(1, 16);

    assert_eq!(channel.payload_slot_size(), 16);
    assert_eq!(channel.region_slot_size(), 16 + FRAME_HEADER_LEN);
}

#[test]
fn channel_reports_message_size_limits() {
    let channel = channel(4, 64);
    let limits = channel.message_size_limits();

    assert_eq!(limits.slot_size, 64);
    assert_eq!(limits.chunk_metadata_size, CHUNK_METADATA_LEN);
    assert_eq!(limits.chunk_payload_size, 22);
    assert_eq!(limits.max_message_size, 88);
}

#[test]
fn channel_rejects_oversized_payload_before_frame_encode() {
    let mut channel = channel(1, 4);

    assert_eq!(
        channel.send(b"abcde").expect_err("too large"),
        DslineError::Channel(ChannelError::MessageTooLarge {
            len: 5,
            slot_size: 4
        })
    );
}

#[test]
fn channel_reports_full_with_raise_backpressure() {
    let mut channel = channel(1, 16);
    channel.send(b"one").expect("send one");

    assert_eq!(
        channel.send(b"two").expect_err("full"),
        DslineError::Channel(ChannelError::BufferFull)
    );
}

#[test]
fn channel_block_backpressure_times_out() {
    let mut channel = ShmSpscChannel::new(SpscConfig {
        capacity: 1,
        slot_size: 16,
        backpressure: Backpressure::Block,
        timeout: Some(Duration::from_millis(1)),
    })
    .expect("channel");
    channel.send(b"one").expect("send one");

    assert_eq!(
        channel.send(b"two").expect_err("timeout"),
        DslineError::Channel(ChannelError::BufferFull)
    );
}

#[test]
fn channel_drop_newest_backpressure_discards_incoming_message() {
    let mut channel = ShmSpscChannel::new(SpscConfig {
        capacity: 1,
        slot_size: 16,
        backpressure: Backpressure::DropNewest,
        timeout: None,
    })
    .expect("channel");
    channel.send(b"one").expect("send one");
    channel.send(b"two").expect("drop two");

    assert_eq!(channel.len(), 1);
    assert_eq!(channel.next_sequence(), 1);
    let message = channel.recv_with_seq().expect("recv one");
    assert_eq!(message.seq, 0);
    assert_eq!(message.payload, b"one");
    assert_eq!(
        channel.recv().expect_err("empty"),
        DslineError::Channel(ChannelError::BufferEmpty)
    );
}

#[test]
fn channel_drop_oldest_backpressure_discards_oldest_message() {
    let mut channel = ShmSpscChannel::new(SpscConfig {
        capacity: 2,
        slot_size: 16,
        backpressure: Backpressure::DropOldest,
        timeout: None,
    })
    .expect("channel");
    channel.send(b"one").expect("send one");
    channel.send(b"two").expect("send two");
    channel.send(b"three").expect("send three");

    assert_eq!(channel.len(), 2);
    assert_eq!(channel.next_sequence(), 3);
    assert_eq!(channel.expected_recv_sequence(), 1);
    let first = channel.recv_with_seq().expect("recv two");
    let second = channel.recv_with_seq().expect("recv three");
    assert_eq!(first.seq, 1);
    assert_eq!(first.payload, b"two");
    assert_eq!(second.seq, 2);
    assert_eq!(second.payload, b"three");
}

#[test]
fn channel_drop_oldest_discards_whole_chunked_message() {
    let mut channel = ShmSpscChannel::new(SpscConfig {
        capacity: 4,
        slot_size: 64,
        backpressure: Backpressure::DropOldest,
        timeout: None,
    })
    .expect("channel");
    let large = vec![b'a'; 80];
    channel.send(&large).expect("send large");
    channel.send(b"small").expect("send small and drop large");

    assert_eq!(channel.len(), 1);
    assert_eq!(channel.expected_recv_sequence(), 1);
    let message = channel.recv_with_seq().expect("recv small");
    assert_eq!(message.seq, 1);
    assert_eq!(message.payload, b"small");
}

#[test]
fn channel_close_prevents_send_and_drains_existing_messages() {
    let mut channel = channel(2, 16);
    channel.send(b"one").expect("send one");
    channel.close();

    assert_eq!(
        channel.send(b"two").expect_err("closed"),
        DslineError::Channel(ChannelError::Closed)
    );
    assert_eq!(channel.recv().expect("drain"), b"one");
    assert_eq!(
        channel.recv().expect_err("closed empty"),
        DslineError::Channel(ChannelError::Closed)
    );
}

#[test]
fn channel_releases_slot_after_decode_error() {
    let mut channel = channel(1, 16);
    channel.send(b"one").expect("send one");
    channel.corrupt_tail_checksum_for_test().expect("damage");

    assert_eq!(
        channel.recv().expect_err("checksum mismatch"),
        DslineError::Channel(ChannelError::CorruptedMessage)
    );
    assert!(channel.is_empty());
    channel.send(b"two").expect("slot reusable");
    assert_eq!(channel.recv().expect("recv two"), b"two");
}

#[test]
fn channel_rejects_frame_sequence_mismatch() {
    let mut channel = channel(1, 16);
    channel.send(b"one").expect("send one");
    channel.corrupt_tail_frame_seq_for_test(7).expect("damage");

    assert_eq!(
        channel.recv().expect_err("sequence mismatch"),
        DslineError::Channel(ChannelError::SequenceMismatch {
            expected: 0,
            actual: 7
        })
    );
    assert!(channel.is_empty());
}

#[test]
fn channel_accepts_injected_storage_backend() {
    let config = SpscConfig {
        capacity: 2,
        slot_size: 16,
        backpressure: Backpressure::Raise,
        timeout: None,
    };
    let storage = MemorySlotStorage::new(2, 16 + FRAME_HEADER_LEN).expect("storage");
    let mut channel = ShmSpscChannel::with_storage(config, storage).expect("channel");

    channel.send(b"one").expect("send");

    assert_eq!(channel.recv().expect("recv"), b"one");
}

#[test]
fn channel_rejects_storage_capacity_mismatch() {
    let config = SpscConfig {
        capacity: 2,
        slot_size: 16,
        backpressure: Backpressure::Raise,
        timeout: None,
    };
    let storage = MemorySlotStorage::new(1, 16 + FRAME_HEADER_LEN).expect("storage");

    assert_eq!(
        ShmSpscChannel::with_storage(config, storage).expect_err("mismatch"),
        DslineError::Channel(ChannelError::InvalidConfig("storage capacity mismatch"))
    );
}

#[test]
fn channel_rejects_storage_slot_size_too_small() {
    let config = SpscConfig {
        capacity: 1,
        slot_size: 16,
        backpressure: Backpressure::Raise,
        timeout: None,
    };
    let storage = MemorySlotStorage::new(1, 16).expect("storage");

    assert_eq!(
        ShmSpscChannel::with_storage(config, storage).expect_err("too small"),
        DslineError::Channel(ChannelError::InvalidConfig(
            "storage slot_size is too small"
        ))
    );
}

#[test]
fn memory_storage_checks_shape_and_range() {
    assert_eq!(
        MemorySlotStorage::new(0, 4).expect_err("capacity"),
        DslineError::Channel(ChannelError::InvalidConfig(
            "capacity must be greater than zero"
        ))
    );
    assert_eq!(
        MemorySlotStorage::new(4, 0).expect_err("slot size"),
        DslineError::Channel(ChannelError::InvalidConfig(
            "slot_size must be greater than zero"
        ))
    );
    assert_eq!(
        MemorySlotStorage::new(usize::MAX, 2).expect_err("overflow"),
        DslineError::Channel(ChannelError::InvalidConfig("storage size overflow"))
    );
    let mut storage = MemorySlotStorage::new(3, 4).expect("storage");
    assert_eq!(storage.capacity(), 3);
    assert_eq!(storage.slot_size(), 4);
    storage.write_slot(1, b"abcd").expect("write");
    storage.write_slot(1, b"xy").expect("write");
    assert_eq!(storage.read_slot(1, 4).expect("read"), b"xycd");
    assert_eq!(storage.read_slot(0, 4).expect("read"), &[0; 4]);
    assert_eq!(storage.read_slot(2, 4).expect("read"), &[0; 4]);
    storage.clear_slot(1).expect("clear");
    assert_eq!(storage.read_slot(1, 4).expect("read"), &[0; 4]);
    assert_eq!(
        storage.write_slot(0, b"abcde").expect_err("too large"),
        DslineError::Channel(ChannelError::MessageTooLarge {
            len: 5,
            slot_size: 4
        })
    );
    for result in [
        storage.write_slot(3, b"a"),
        storage.clear_slot(3),
        storage.read_slot(3, 1).map(|_| ()),
    ] {
        assert_eq!(
            result.expect_err("range"),
            DslineError::Channel(ChannelError::InvalidConfig("slot index out of range"))
        );
    }
}

#[test]
fn existing_storage_must_be_large_enough() {
    assert_eq!(storage_len(2, 16), Ok(32));
    assert_eq!(existing_storage_len(2, 16, 32), Ok(32));
    assert_eq!(existing_storage_len(2, 16, 33), Ok(32));
    assert_eq!(
        existing_storage_len(2, 16, 4).expect_err("too small"),
        DslineError::Channel(ChannelError::InvalidConfig(
            "file storage is smaller than expected"
        ))
    );
    assert_eq!(slot_offset(4, 16, 3, 16), Ok(48));
    assert_eq!(
        slot_offset(4, 16, 3, 17).expect_err("too large"),
        DslineError::Channel(ChannelError::MessageTooLarge {
            len: 17,
            slot_size: 16
        })
    );
}

#[test]
fn slots_are_read_and_released_only_in_the_right_state() {
    let mut region = FixedSlotRegion::new(2, 64).expect("region");
    assert_eq!(region.capacity(), 2);
    assert_eq!(region.slot_size(), 64);
    let empty = DslineError::Channel(ChannelError::BufferEmpty);
    assert_eq!(region.read_committed(0).expect_err("free"), empty);
    assert_eq!(region.peek_committed(0).expect_err("free"), empty);
    assert_eq!(
        region.release_pinned(0).expect_err("free"),
        DslineError::Channel(ChannelError::InvalidConfig("slot is not pinned"))
    );
    assert_eq!(
        region.release_committed(0).expect_err("free"),
        DslineError::Channel(ChannelError::InvalidConfig("slot is not committed"))
    );
    region.write_committed(0, 3, b"abc").expect("write");
    let peeked = region.peek_committed(0).expect("peek");
    assert_eq!(peeked.state, SlotState::Committed);
    assert_eq!(peeked.data, b"abc");
    assert_eq!(region.state(0).expect("state"), SlotState::Committed);
    region.release_committed(0).expect("release");
    assert_eq!(region.state(0).expect("state"), SlotState::Free);
    for result in [
        region.write_committed(2, 0, b""),
        region.mark_corrupted(2),
        region.release_pinned(2),
        region.release_committed(2),
        region.state(2).map(|_| ()),
        region.read_committed(2).map(|_| ()),
    ] {
        assert_eq!(
            result.expect_err("range"),
            DslineError::Channel(ChannelError::InvalidConfig("slot index out of range"))
        );
    }
    assert_eq!(
        FixedSlotRegion::new(0, 1).expect_err("capacity"),
        DslineError::Channel(ChannelError::InvalidConfig(
            "capacity must be greater than zero"
        ))
    );
}

#[test]
fn a_damaged_message_is_lost_and_the_next_one_comes() {
    let mut channel = channel(2, 16);
    channel.send(b"one").expect("send");
    channel.send(b"two").expect("send");
    channel.corrupt_tail_checksum_for_test().expect("damage");
    assert_eq!(
        channel.recv().expect_err("damaged"),
        DslineError::Channel(ChannelError::CorruptedMessage)
    );
    assert_eq!(channel.expected_recv_sequence(), 1);
    assert_eq!(channel.last_received_sequence(), None);
    let message = channel.recv_with_seq().expect("recv");
    assert_eq!(message.seq, 1);
    assert_eq!(message.payload, b"two");
}

#[test]
fn a_slot_out_of_sequence_stays_pinned() {
    let mut channel = channel(2, 16);
    channel.send(b"one").expect("send");
    channel.set_expected_recv_sequence_for_test(5);
    assert_eq!(
        channel.recv().expect_err("sequence"),
        DslineError::Channel(ChannelError::SequenceMismatch {
            expected: 5,
            actual: 0
        })
    );
    assert_eq!(channel.len(), 1);
    assert_eq!(
        channel.recv().expect_err("pinned"),
        DslineError::Channel(ChannelError::BufferEmpty)
    );
}

#[test]
fn the_largest_message_is_accepted_and_no_larger_one() {
    let mut channel = channel(3, CHUNK_METADATA_LEN + 10);
    let limits = channel.message_size_limits();
    assert_eq!(limits.slot_size, CHUNK_METADATA_LEN + 10);
    assert_eq!(limits.chunk_metadata_size, CHUNK_METADATA_LEN);
    assert_eq!(limits.chunk_payload_size, 10);
    assert_eq!(limits.max_message_size, 52);
    let largest: Vec<u8> = (0..52u8).collect();
    channel.send(&largest).expect("send");
    assert_eq!(channel.recv().expect("recv"), largest);
    assert_eq!(
        channel.send(&[0; 53]).expect_err("too large"),
        DslineError::Channel(ChannelError::MessageTooLarge {
            len: 53,
            slot_size: 52
        })
    );
    let mut wide = ShmSpscChannel::new(SpscConfig {
        capacity: 8,
        slot_size: CHUNK_METADATA_LEN + 10,
        backpressure: Backpressure::Raise,
        timeout: None,
    })
    .expect("channel");
    assert_eq!(wide.message_size_limits().max_message_size, 80);
    let whole: Vec<u8> = (0..80u8).collect();
    wide.send(&whole).expect("send");
    assert_eq!(wide.len(), 8);
    assert_eq!(wide.recv().expect("recv"), whole);
    wide.send(&whole[..53]).expect("send");
    assert_eq!(wide.len(), 6);
    assert_eq!(wide.recv().expect("recv"), &whole[..53]);
}

#[test]
fn dropping_the_oldest_makes_just_enough_room() {
    let mut channel = ShmSpscChannel::new(SpscConfig {
        capacity: 8,
        slot_size: CHUNK_METADATA_LEN + 10,
        backpressure: Backpressure::DropOldest,
        timeout: None,
    })
    .expect("channel");
    for byte in 0u8..5 {
        channel.send(&[byte]).expect("send");
    }
    channel.send(&[9; 55]).expect("send");
    assert_eq!(channel.len(), 8);
    assert_eq!(channel.recv().expect("recv"), [3]);
    assert_eq!(channel.recv().expect("recv"), [4]);
    let message = channel.recv_with_seq().expect("recv");
    assert_eq!(message.seq, 5);
    assert_eq!(message.payload, [9; 55]);
}

#[test]
fn channel_checks_its_slot_size() {
    let config = SpscConfig {
        capacity: 1,
        slot_size: usize::MAX - 10,
        backpressure: Backpressure::Raise,
        timeout: None,
    };
    assert_eq!(
        ShmSpscChannel::new(config).expect_err("too large"),
        DslineError::Channel(ChannelError::InvalidConfig("slot_size is too large"))
    );
    let config = SpscConfig {
        capacity: usize::MAX,
        slot_size: 1,
        backpressure: Backpressure::Raise,
        timeout: None,
    };
    assert_eq!(
        ShmSpscChannel::new(config).expect_err("too large"),
        DslineError::Channel(ChannelError::InvalidConfig("storage size overflow"))
    );
}

/// Storage whose writes can be made to fail.
#[derive(Debug)]
struct Brittle {
    memory: MemorySlotStorage,
    broken: bool,
}

impl FixedSlotStorage for Brittle {
    fn capacity(&self) -> usize {
        self.memory.capacity()
    }

    fn slot_size(&self) -> usize {
        self.memory.slot_size()
    }

    fn write_slot(&mut self, index: usize, bytes: &[u8]) -> Result<(), DslineError> {
        if self.broken {
            return Err(DslineError::Channel(ChannelError::StorageIo("broken")));
        }
        self.memory.write_slot(index, bytes)
    }

    fn read_slot(&self, index: usize, len: usize) -> Result<Vec<u8>, DslineError> {
        self.memory.read_slot(index, len)
    }

    fn clear_slot(&mut self, index: usize) -> Result<(), DslineError> {
        self.memory.clear_slot(index)
    }
}

#[test]
fn a_slot_whose_write_fails_is_left_as_being_written() {
    let memory = MemorySlotStorage::new(1, 64).expect("storage");
    let storage = Brittle {
        memory,
        broken: true,
    };
    let mut region = FixedSlotRegion::with_storage(storage).expect("region");
    assert_eq!(
        region.write_committed(0, 1, b"abc").expect_err("broken"),
        DslineError::Channel(ChannelError::StorageIo("broken"))
    );
    assert_eq!(region.state(0).expect("state"), SlotState::Writing);
}

#[test]
fn front_end_decisions() {
    assert!(is_blank_name(""));
    assert!(is_blank_name(" \t\r\n\u{3000}"));
    assert!(!is_blank_name(" a "));
    for (error, class) in [
        (ChannelError::Closed, ErrorClass::ChannelClosed),
        (ChannelError::BufferFull, ErrorClass::BufferFull),
        (ChannelError::BufferEmpty, ErrorClass::BufferEmpty),
        (
            ChannelError::MessageTooLarge {
                len: 2,
                slot_size: 1,
            },
            ErrorClass::MessageTooLarge,
        ),
        (ChannelError::CorruptedMessage, ErrorClass::CorruptedMessage),
        (ChannelError::InvalidConfig("x"), ErrorClass::InvalidValue),
        (ChannelError::StorageIo("x"), ErrorClass::Channel),
        (
            ChannelError::SequenceMismatch {
                expected: 1,
                actual: 2,
            },
            ErrorClass::Channel,
        ),
    ] {
        assert_eq!(error_class(&DslineError::Channel(error)), class);
    }
    assert_eq!(
        error_class(&DslineError::Protocol(ProtocolError::HeaderLengthOverflow)),
        ErrorClass::Other
    );
    assert_eq!(
        error_class(&DslineError::Transport(TransportError::EmptyUrl)),
        ErrorClass::Other
    );
}

#[test]
fn sequence_numbers_are_ordered_round_the_circle() {
    assert!(sequence_precedes(0, 1));
    assert!(!sequence_precedes(1, 0));
    assert!(!sequence_precedes(5, 5));
    assert!(sequence_precedes(u64::MAX, 0));
    assert!(!sequence_precedes(0, u64::MAX));
    assert!(sequence_precedes(0, (1 << 63) - 1));
    assert!(!sequence_precedes(0, 1 << 63));
}

#[test]
fn slots_in_use_stay_in_one_run_through_damage() {
    let mut channel = channel(3, 8);
    for round in 0..5u8 {
        channel.send(&[round, 1]).unwrap();
        channel.send(&[round, 2]).unwrap();
        channel.corrupt_tail_checksum_for_test().unwrap();
        channel.send(&[round, 3]).unwrap();
        assert_eq!(channel.len(), 3);
        assert!(channel.send(&[round, 4]).is_err());
        assert!(channel.recv().is_err());
        assert_eq!(channel.len(), 2);
        assert_eq!(channel.recv().unwrap(), vec![round, 2]);
        assert_eq!(channel.recv().unwrap(), vec![round, 3]);
        assert!(channel.is_empty());
    }
}

#[test]
fn only_a_sender_with_a_timeout_waits_for_room() {
    let full = DslineError::Channel(ChannelError::BufferFull);
    for (backpressure, timeout, step) in [
        (
            Backpressure::Block,
            Some(Duration::from_millis(1)),
            SendStep::Wait,
        ),
        (Backpressure::Block, None, SendStep::Done(Err(full.clone()))),
        (
            Backpressure::Raise,
            Some(Duration::from_millis(1)),
            SendStep::Done(Err(full.clone())),
        ),
        (
            Backpressure::DropNewest,
            Some(Duration::from_millis(1)),
            SendStep::Done(Ok(())),
        ),
        (
            Backpressure::DropOldest,
            Some(Duration::from_millis(1)),
            SendStep::Done(Ok(())),
        ),
    ] {
        let mut channel = ShmSpscChannel::new(SpscConfig {
            capacity: 1,
            slot_size: 16,
            backpressure,
            timeout,
        })
        .expect("channel");
        assert_eq!(
            channel.send_step(b"one", SendEvent::Start),
            SendStep::Done(Ok(()))
        );
        assert_eq!(channel.send_step(b"two", SendEvent::Start), step);
        assert_eq!(
            channel.send_step(b"three", SendEvent::TimedOut),
            SendStep::Done(Err(full.clone()))
        );
        assert_eq!(channel.len(), 1);
        assert!(matches!(
            channel.send_step(&[0; 17], SendEvent::Start),
            SendStep::Done(Err(DslineError::Channel(
                ChannelError::MessageTooLarge { .. }
            )))
        ));
        channel.recv().expect("recv");
        assert_eq!(
            channel.send_step(b"four", SendEvent::InTime),
            SendStep::Done(Ok(()))
        );
        assert_eq!(channel.recv().expect("recv"), b"four");
    }
}

#[test]
fn a_slot_in_memory_can_be_written_again_once_it_is_released() {
    let mut region = FixedSlotRegion::new(2, 8).expect("region");
    region.write_committed(1, 7, b"first").expect("write");
    let seen = region.peek_committed(1).expect("peek");
    assert_eq!(region.peek_committed(1).expect("peek"), seen);
    assert_eq!(seen.data, b"first");
    assert!(region.release_pinned(1).is_err());
    let read = region.read_committed(1).expect("read");
    assert_eq!(read.state, SlotState::Pinned);
    assert_eq!((read.seq, read.data), (seen.seq, seen.data));
    assert!(region.write_committed(1, 8, b"second").is_err());
    region.release_pinned(1).expect("release");
    assert_eq!(region.state(1).expect("state"), SlotState::Free);
    region.write_committed(1, 8, b"second").expect("write");
    assert_eq!(region.peek_committed(1).expect("peek").data, b"second");
    assert_eq!(region.state(0).expect("state"), SlotState::Free);
}

/// Storage that refuses every write.
#[derive(Debug)]
struct Unwritable;

impl FixedSlotStorage for Unwritable {
    fn capacity(&self) -> usize {
        1
    }

    fn slot_size(&self) -> usize {
        FRAME_HEADER_LEN + 16
    }

    fn write_slot(&mut self, _index: usize, _bytes: &[u8]) -> Result<(), DslineError> {
        Err(DslineError::Channel(ChannelError::StorageIo("write")))
    }

    fn read_slot(&self, _index: usize, len: usize) -> Result<Vec<u8>, DslineError> {
        Ok(vec![0; len])
    }

    fn clear_slot(&mut self, _index: usize) -> Result<(), DslineError> {
        Err(DslineError::Channel(ChannelError::StorageIo("clear")))
    }
}

#[test]
fn a_message_that_cannot_fit_is_refused_before_the_storage_is_asked() {
    let mut channel = ShmSpscChannel::with_storage(
        SpscConfig {
            capacity: 1,
            slot_size: 16,
            backpressure: Backpressure::Raise,
            timeout: None,
        },
        Unwritable,
    )
    .expect("channel");
    assert_eq!(
        channel.send(b"one"),
        Err(DslineError::Channel(ChannelError::StorageIo("write")))
    );
    assert!(matches!(
        channel.send(&[0; 17]),
        Err(DslineError::Channel(ChannelError::MessageTooLarge { .. }))
    ));
    assert_eq!(channel.len(), 0);
    channel.close();
    assert_eq!(
        channel.send(b"two"),
        Err(DslineError::Channel(ChannelError::Closed))
    );
}

/// Storage that takes one write and refuses all others.
#[derive(Debug)]
struct WriteOnce {
    written: bool,
}

impl FixedSlotStorage for WriteOnce {
    fn capacity(&self) -> usize {
        1
    }

    fn slot_size(&self) -> usize {
        FRAME_HEADER_LEN + 16
    }

    fn write_slot(&mut self, _index: usize, _bytes: &[u8]) -> Result<(), DslineError> {
        if self.written {
            return Err(DslineError::Channel(ChannelError::StorageIo("write")));
        }
        self.written = true;
        Ok(())
    }

    fn read_slot(&self, _index: usize, _len: usize) -> Result<Vec<u8>, DslineError> {
        Err(DslineError::Channel(ChannelError::StorageIo("read")))
    }

    fn clear_slot(&mut self, _index: usize) -> Result<(), DslineError> {
        Err(DslineError::Channel(ChannelError::StorageIo("clear")))
    }
}

#[test]
fn a_full_channel_decides_without_its_storage() {
    let full = DslineError::Channel(ChannelError::BufferFull);
    let unread = DslineError::Channel(ChannelError::StorageIo("read"));
    for (backpressure, answer) in [
        (Backpressure::Raise, Err(full.clone())),
        (Backpressure::Block, Err(full)),
        (Backpressure::DropNewest, Ok(())),
        (Backpressure::DropOldest, Err(unread)),
    ] {
        let mut channel = ShmSpscChannel::with_storage(
            SpscConfig {
                capacity: 1,
                slot_size: 16,
                backpressure,
                timeout: None,
            },
            WriteOnce { written: false },
        )
        .expect("channel");
        assert_eq!(channel.send(b"one"), Ok(()));
        assert_eq!(channel.send(b"two"), answer);
        assert_eq!(channel.len(), 1);
        assert_eq!(channel.next_sequence(), 1);
    }
}
