//! Slots whose states lie in the storage, and the channel over them.

use dsline::error::{ChannelError, DslineError};
use dsline::frame::{encode_frame, FrameKind};
use dsline::persistent::{PersistentSlotRegion, PERSISTENT_SLOT_HEADER_LEN};
use dsline::persistent_channel::{persistent_slot_size, PersistentShmChannel};
use dsline::slot::SlotState;
use dsline::spsc::{Backpressure, SendEvent, SendStep, SpscConfig};
use std::time::Duration;
use dsline::storage::{FixedSlotStorage, MemorySlotStorage};
use std::cell::RefCell;
use std::rc::Rc;

fn memory_for(config: &SpscConfig) -> MemorySlotStorage {
    let slot_size = persistent_slot_size(config).expect("slot size");
    MemorySlotStorage::new(config.capacity, slot_size).expect("storage")
}

#[test]
fn persistent_channel_drop_oldest_backpressure_discards_oldest_message() {
    let config = SpscConfig {
        capacity: 2,
        slot_size: 16,
        backpressure: Backpressure::DropOldest,
        timeout: None,
    };
    let storage = memory_for(&config);
    let mut channel = PersistentShmChannel::create(storage, config).expect("persistent channel");

    channel.send(b"one").expect("send one");
    channel.send(b"two").expect("send two");
    channel.send(b"three").expect("send three");

    assert_eq!(channel.len(), 2);
    let first = channel.recv_with_seq().expect("recv two").expect("ready");
    let second = channel.recv_with_seq().expect("recv three").expect("ready");
    assert_eq!(first.seq, 1);
    assert_eq!(first.payload, b"two");
    assert_eq!(second.seq, 2);
    assert_eq!(second.payload, b"three");
}

#[test]
fn persistent_channel_sends_and_receives_chunked_message() {
    let config = SpscConfig {
        capacity: 4,
        slot_size: 64,
        backpressure: Backpressure::Raise,
        timeout: None,
    };
    let storage = memory_for(&config);
    let mut channel = PersistentShmChannel::create(storage, config).expect("persistent channel");
    let payload = vec![b'z'; 80];

    channel.send(&payload).expect("send chunked");

    assert_eq!(channel.len(), 4);
    let message = channel.recv_with_seq().expect("recv chunked").expect("ready");
    assert_eq!(message.seq, 0);
    assert_eq!(message.payload, payload);
    assert!(channel.is_empty());
}

/// Storage that several channels use at once.
#[derive(Debug, Clone)]
struct SharedStorage {
    memory: Rc<RefCell<MemorySlotStorage>>,
}

impl SharedStorage {
    fn for_config(config: &SpscConfig) -> Self {
        Self {
            memory: Rc::new(RefCell::new(memory_for(config))),
        }
    }
}

impl FixedSlotStorage for SharedStorage {
    fn capacity(&self) -> usize {
        self.memory.borrow().capacity()
    }

    fn slot_size(&self) -> usize {
        self.memory.borrow().slot_size()
    }

    fn write_slot(&mut self, index: usize, bytes: &[u8]) -> Result<(), DslineError> {
        self.memory.borrow_mut().write_slot(index, bytes)
    }

    fn read_slot(&self, index: usize, len: usize) -> Result<Vec<u8>, DslineError> {
        self.memory.borrow().read_slot(index, len)
    }

    fn clear_slot(&mut self, index: usize) -> Result<(), DslineError> {
        self.memory.borrow_mut().clear_slot(index)
    }
}

fn shared_config(capacity: usize, slot_size: usize, backpressure: Backpressure) -> SpscConfig {
    SpscConfig {
        capacity,
        slot_size,
        backpressure,
        timeout: None,
    }
}

#[test]
fn producer_and_consumer_share_slots() {
    let config = shared_config(3, 16, Backpressure::Raise);
    let storage = SharedStorage::for_config(&config);
    let mut producer =
        PersistentShmChannel::create(storage.clone(), config.clone()).expect("producer");
    let mut consumer = PersistentShmChannel::open(storage, config).expect("consumer");

    for round in 0u8..10 {
        producer.send(&[round]).expect("send");
        producer.send(&[round, round]).expect("send");
        assert_eq!(consumer.recv().expect("recv"), Some(vec![round]));
        assert_eq!(consumer.recv().expect("recv"), Some(vec![round, round]));
    }
    assert_eq!(
        consumer.recv().expect_err("empty"),
        DslineError::Channel(ChannelError::BufferEmpty)
    );
}

#[test]
fn reopening_finds_the_oldest_message_of_a_full_channel() {
    let config = shared_config(3, 16, Backpressure::Raise);
    let storage = SharedStorage::for_config(&config);
    let mut channel =
        PersistentShmChannel::create(storage.clone(), config.clone()).expect("channel");
    channel.send(b"one").expect("send");
    channel.send(b"two").expect("send");
    channel.send(b"three").expect("send");
    assert_eq!(channel.recv().expect("recv"), Some(b"one".to_vec()));
    channel.send(b"four").expect("send");

    let mut newcomer = PersistentShmChannel::open(storage, config).expect("newcomer");
    assert_eq!(newcomer.len(), 3);
    assert_eq!(newcomer.next_sequence(), 4);
    assert_eq!(newcomer.expected_recv_sequence(), 1);
    assert_eq!(newcomer.recv().expect("recv"), Some(b"two".to_vec()));
    assert_eq!(newcomer.recv().expect("recv"), Some(b"three".to_vec()));
    assert_eq!(newcomer.recv().expect("recv"), Some(b"four".to_vec()));
    assert_eq!(newcomer.last_received_sequence(), Some(3));
}

#[test]
fn reopening_finds_the_first_chunk_of_a_wrapped_message() {
    let config = shared_config(4, 84, Backpressure::Raise);
    let storage = SharedStorage::for_config(&config);
    let mut channel =
        PersistentShmChannel::create(storage.clone(), config.clone()).expect("channel");
    let long: Vec<u8> = (0u8..100).collect();
    channel.send(b"a").expect("send");
    channel.send(b"b").expect("send");
    channel.send(b"c").expect("send");
    assert_eq!(channel.recv().expect("recv"), Some(b"a".to_vec()));
    assert_eq!(channel.recv().expect("recv"), Some(b"b".to_vec()));
    channel.send(&long).expect("send");
    assert_eq!(channel.recv().expect("recv"), Some(b"c".to_vec()));
    channel.send(b"d").expect("send");
    assert_eq!(channel.len(), 4);

    let mut newcomer = PersistentShmChannel::open(storage, config).expect("newcomer");
    assert_eq!(newcomer.recv().expect("recv"), Some(long));
    assert_eq!(newcomer.recv().expect("recv"), Some(b"d".to_vec()));
}

#[test]
fn a_message_still_being_written_is_waited_for() {
    let config = shared_config(4, 50, Backpressure::Raise);
    let slot_size = persistent_slot_size(&config).expect("slot size");
    let storage = SharedStorage::for_config(&config);
    let mut consumer =
        PersistentShmChannel::create(storage.clone(), config.clone()).expect("consumer");
    let mut writer = PersistentSlotRegion::with_storage(storage.clone()).expect("region");
    let plain = encode_frame(FrameKind::Bytes, 0, 0, 0, 0, &[], b"late").expect("encode");

    // The slot is marked as being written, and its frame is not there yet.
    let mut marked = vec![1u8];
    marked.extend_from_slice(&0u64.to_le_bytes());
    marked.extend_from_slice(&(plain.len() as u32).to_le_bytes());
    assert_eq!(marked.len(), PERSISTENT_SLOT_HEADER_LEN);
    storage.clone().write_slot(0, &marked).expect("mark");
    assert_eq!(writer.state(0).expect("state"), SlotState::Writing);
    assert_eq!(consumer.recv().expect("not yet"), None);
    assert_eq!(consumer.recv().expect("not yet"), None);

    // Now it is written and committed.
    storage.clone().clear_slot(0).expect("clear");
    writer.write_committed(0, 0, &plain).expect("commit");
    assert_eq!(consumer.recv().expect("recv"), Some(b"late".to_vec()));
    assert_eq!(slot_size, 50 + 50 + PERSISTENT_SLOT_HEADER_LEN);
}

#[test]
fn chunks_received_so_far_are_kept_while_waiting() {
    let payload: Vec<u8> = (0u8..60).collect();
    let wide = shared_config(8, 50, Backpressure::Raise);
    let wide_storage = SharedStorage::for_config(&wide);
    let mut sender =
        PersistentShmChannel::create(wide_storage.clone(), wide.clone()).expect("sender");
    sender.send(&payload).expect("send");
    assert_eq!(sender.len(), 8);

    // Copy the slots one by one, and receive in between.
    let target = SharedStorage::for_config(&wide);
    let mut consumer =
        PersistentShmChannel::create(target.clone(), wide.clone()).expect("consumer");
    let slot_size = persistent_slot_size(&wide).expect("slot size");
    for index in 0..8 {
        let bytes = wide_storage.read_slot(index, slot_size).expect("read");
        target.clone().write_slot(index, &bytes).expect("write");
        let received = consumer.recv().expect("recv");
        if index < 7 {
            assert_eq!(received, None);
        } else {
            assert_eq!(received, Some(payload.clone()));
        }
    }
    assert_eq!(consumer.len(), 0);
}

#[test]
fn a_closed_persistent_channel_refuses_and_reports() {
    let config = shared_config(2, 16, Backpressure::Raise);
    let storage = memory_for(&config);
    let mut channel = PersistentShmChannel::create(storage, config).expect("channel");
    channel.send(b"x").expect("send");
    assert!(!channel.is_closed());
    channel.close();
    assert_eq!(
        channel.send(b"y").expect_err("closed"),
        DslineError::Channel(ChannelError::Closed)
    );
    assert_eq!(channel.recv().expect("recv"), Some(b"x".to_vec()));
    assert_eq!(
        channel.recv().expect_err("closed and empty"),
        DslineError::Channel(ChannelError::Closed)
    );
}

#[test]
fn a_closed_channel_does_not_wait() {
    let config = shared_config(2, 16, Backpressure::Raise);
    let storage = SharedStorage::for_config(&config);
    let mut channel = PersistentShmChannel::create(storage.clone(), config).expect("channel");
    let mut marked = vec![1u8];
    marked.extend_from_slice(&[0u8; 12]);
    storage.clone().write_slot(0, &marked).expect("mark");
    channel.close();
    assert_eq!(
        channel.recv().expect_err("closed"),
        DslineError::Channel(ChannelError::Closed)
    );
}

#[test]
fn persistent_policies_for_a_full_channel() {
    let config = shared_config(1, 16, Backpressure::DropNewest);
    let storage = memory_for(&config);
    let mut channel = PersistentShmChannel::create(storage, config).expect("channel");
    channel.send(b"kept").expect("send");
    channel.send(b"lost").expect("discarded");
    assert_eq!(channel.recv().expect("recv"), Some(b"kept".to_vec()));

    let config = shared_config(1, 16, Backpressure::Block);
    let storage = memory_for(&config);
    let mut channel = PersistentShmChannel::create(storage, config).expect("channel");
    channel.send(b"kept").expect("send");
    assert_eq!(
        channel.send(b"refused").expect_err("full"),
        DslineError::Channel(ChannelError::BufferFull)
    );
    assert_eq!(
        channel.send(&[0; 17]).expect_err("too large"),
        DslineError::Channel(ChannelError::MessageTooLarge {
            len: 17,
            slot_size: 16
        })
    );
}

#[test]
fn persistent_channel_checks_its_storage() {
    let config = shared_config(2, 16, Backpressure::Raise);
    let storage = MemorySlotStorage::new(3, 79).expect("storage");
    assert_eq!(
        PersistentShmChannel::create(storage, config.clone()).expect_err("capacity"),
        DslineError::Channel(ChannelError::InvalidConfig("storage capacity mismatch"))
    );
    let storage = MemorySlotStorage::new(2, 78).expect("storage");
    assert_eq!(
        PersistentShmChannel::open(storage, config).expect_err("slot size"),
        DslineError::Channel(ChannelError::InvalidConfig(
            "storage slot_size is too small"
        ))
    );
    let config = shared_config(2, usize::MAX, Backpressure::Raise);
    assert_eq!(
        persistent_slot_size(&config).expect_err("overflow"),
        DslineError::Channel(ChannelError::InvalidConfig("slot_size is too large"))
    );
    let config = shared_config(0, 1, Backpressure::Raise);
    assert_eq!(
        persistent_slot_size(&config).expect_err("capacity"),
        DslineError::Channel(ChannelError::InvalidConfig(
            "capacity must be greater than zero"
        ))
    );
}

#[test]
fn persistent_slots_go_through_their_states() {
    let storage = MemorySlotStorage::new(2, PERSISTENT_SLOT_HEADER_LEN + 64).expect("storage");
    let mut region = PersistentSlotRegion::with_storage(storage).expect("region");
    assert_eq!(region.capacity(), 2);
    assert_eq!(region.slot_size(), PERSISTENT_SLOT_HEADER_LEN + 64);
    assert_eq!(region.frame_capacity(), 64);
    assert_eq!(region.state(0).expect("state"), SlotState::Free);

    region.write_committed(0, 9, b"frame").expect("write");
    assert_eq!(region.state(0).expect("state"), SlotState::Committed);
    assert_eq!(
        region.write_committed(0, 10, b"other").expect_err("taken"),
        DslineError::Channel(ChannelError::BufferFull)
    );
    let peeked = region.peek_committed(0).expect("peek");
    assert_eq!(peeked.state, SlotState::Committed);
    assert_eq!(peeked.seq, 9);
    assert_eq!(peeked.payload_len, 5);
    assert_eq!(peeked.data, b"frame");
    let read = region.read_committed(0).expect("read");
    assert_eq!(read.state, SlotState::Pinned);
    assert_eq!(read.data, b"frame");
    assert_eq!(
        region.read_committed(0).expect_err("pinned"),
        DslineError::Channel(ChannelError::BufferEmpty)
    );
    assert_eq!(
        region.release_committed(0).expect_err("pinned"),
        DslineError::Channel(ChannelError::InvalidConfig("slot is not committed"))
    );
    region.release_pinned(0).expect("release");
    assert_eq!(region.state(0).expect("state"), SlotState::Free);
    assert_eq!(
        region.release_pinned(0).expect_err("free"),
        DslineError::Channel(ChannelError::InvalidConfig("slot is not pinned"))
    );
    region.write_committed(0, 11, b"again").expect("write");
    region.release_committed(0).expect("release");
    region.mark_corrupted(1).expect("mark");
    assert_eq!(region.state(1).expect("state"), SlotState::Corrupted);
    assert_eq!(
        region.state(2).expect_err("range"),
        DslineError::Channel(ChannelError::InvalidConfig("slot index out of range"))
    );
}

#[test]
fn a_frame_too_large_for_a_persistent_slot_leaves_it_as_being_written() {
    let storage = MemorySlotStorage::new(1, PERSISTENT_SLOT_HEADER_LEN + 4).expect("storage");
    let mut region = PersistentSlotRegion::with_storage(storage).expect("region");
    assert_eq!(
        region.write_committed(0, 1, b"abcde").expect_err("too large"),
        DslineError::Channel(ChannelError::MessageTooLarge {
            len: 5,
            slot_size: 4
        })
    );
    assert_eq!(region.state(0).expect("state"), SlotState::Writing);

    let storage = MemorySlotStorage::new(1, PERSISTENT_SLOT_HEADER_LEN).expect("storage");
    assert_eq!(
        PersistentSlotRegion::with_storage(storage).expect_err("no room"),
        DslineError::Channel(ChannelError::InvalidConfig(
            "slot_size must be greater than persistent header size"
        ))
    );
}

#[test]
fn unknown_state_bytes_are_damage() {
    let mut storage = MemorySlotStorage::new(1, 64).expect("storage");
    storage.write_slot(0, &[7]).expect("write");
    let region = PersistentSlotRegion::with_storage(storage).expect("region");
    assert_eq!(region.state(0).expect("state"), SlotState::Corrupted);
    assert_eq!(
        region.read_header(0).expect("header"),
        (SlotState::Corrupted, 0, 0)
    );
}

#[test]
fn state_codes_are_found_again() {
    for (code, state) in [
        (0, SlotState::Free),
        (1, SlotState::Writing),
        (2, SlotState::Committed),
        (3, SlotState::Pinned),
        (4, SlotState::Corrupted),
    ] {
        assert_eq!(state.code(), code);
        assert_eq!(SlotState::from_code(code), state);
    }
    assert_eq!(SlotState::from_code(255), SlotState::Corrupted);
}

#[test]
fn two_handles_keep_the_order_through_full_and_empty_channels() {
    let config = shared_config(3, 16, Backpressure::Raise);
    let storage = SharedStorage::for_config(&config);
    let mut producer = PersistentShmChannel::create(storage.clone(), config.clone()).expect("create");
    let mut consumer = PersistentShmChannel::open(storage.clone(), config.clone()).expect("open");
    let mut sent: u64 = 0;
    let mut received: u64 = 0;
    for round in 0..6u64 {
        while producer.send(&sent.to_le_bytes()).is_ok() {
            sent += 1;
        }
        assert_eq!(sent - received, 3);
        if round == 3 {
            consumer = PersistentShmChannel::open(storage.clone(), config.clone()).expect("open");
        }
        for _ in 0..(round % 3) + 1 {
            let message = consumer.recv_with_seq().expect("recv").expect("ready");
            assert_eq!(message.seq, received);
            assert_eq!(message.payload, received.to_le_bytes());
            received += 1;
        }
    }
    assert_eq!(sent, received);
    assert_eq!(
        consumer.recv().expect_err("empty"),
        DslineError::Channel(ChannelError::BufferEmpty)
    );
}

#[test]
fn a_sender_waits_until_the_consumer_makes_room() {
    let full = DslineError::Channel(ChannelError::BufferFull);
    let config = SpscConfig {
        timeout: Some(Duration::from_secs(1)),
        ..shared_config(1, 16, Backpressure::Block)
    };
    let storage = SharedStorage::for_config(&config);
    let mut producer = PersistentShmChannel::create(storage.clone(), config.clone()).expect("create");
    let mut consumer = PersistentShmChannel::open(storage, config).expect("open");
    assert_eq!(
        producer.send_step(b"one", SendEvent::Start),
        SendStep::Done(Ok(()))
    );
    assert_eq!(producer.send_step(b"two", SendEvent::Start), SendStep::Wait);
    assert_eq!(producer.send_step(b"two", SendEvent::InTime), SendStep::Wait);
    assert_eq!(
        producer.send_step(b"two", SendEvent::TimedOut),
        SendStep::Done(Err(full.clone()))
    );
    assert_eq!(producer.send(b"two"), Err(full));
    assert_eq!(producer.len(), 1);
    assert_eq!(consumer.recv().expect("recv"), Some(b"one".to_vec()));
    assert_eq!(
        producer.send_step(b"two", SendEvent::InTime),
        SendStep::Done(Ok(()))
    );
    assert_eq!(consumer.recv().expect("recv"), Some(b"two".to_vec()));
    producer.close();
    assert_eq!(
        producer.send_step(b"three", SendEvent::Start),
        SendStep::Done(Err(DslineError::Channel(ChannelError::Closed)))
    );
}

#[test]
fn a_stale_consumer_receives_a_late_message_first_when_messages_are_dropped() {
    let config = shared_config(2, 16, Backpressure::DropOldest);
    let storage = SharedStorage::for_config(&config);
    let mut producer = PersistentShmChannel::create(storage.clone(), config.clone()).expect("create");
    producer.send(b"one").expect("send");
    producer.send(b"two").expect("send");
    let mut consumer = PersistentShmChannel::open(storage.clone(), config.clone()).expect("open");
    producer.send(b"three").expect("send");
    assert_eq!(consumer.recv().expect("recv"), Some(b"three".to_vec()));
    assert_eq!(consumer.recv().expect("recv"), Some(b"two".to_vec()));
    let mut newcomer = PersistentShmChannel::open(storage, config).expect("open");
    producer.send(b"four").expect("send");
    producer.send(b"five").expect("send");
    assert_eq!(newcomer.recv().expect("recv"), Some(b"four".to_vec()));
    assert_eq!(newcomer.recv().expect("recv"), Some(b"five".to_vec()));
}

#[test]
fn a_full_channel_with_an_unreadable_chunk_can_be_opened() {
    let config = shared_config(4, 64, Backpressure::Raise);
    let storage = SharedStorage::for_config(&config);
    let mut channel =
        PersistentShmChannel::create(storage.clone(), config.clone()).expect("channel");
    let payload = vec![b'z'; 80];
    channel.send(&payload).expect("send");
    assert_eq!(channel.len(), 4);

    for index in 0..4 {
        let len = PERSISTENT_SLOT_HEADER_LEN + 4;
        let intact = storage.read_slot(index, len).expect("read");
        let mut damaged = intact.clone();
        for byte in &mut damaged[PERSISTENT_SLOT_HEADER_LEN..] {
            *byte ^= 0xff;
        }
        let mut raw = storage.clone();
        raw.write_slot(index, &damaged).expect("damage");
        let newcomer = PersistentShmChannel::open(storage.clone(), config.clone()).expect("open");
        assert_eq!(newcomer.len(), 4);
        assert_eq!(newcomer.next_sequence(), 1);
        assert_eq!(newcomer.expected_recv_sequence(), 0);
        assert!(channel.refresh().is_ok());
        raw.write_slot(index, &intact).expect("mend");
    }
    let mut newcomer = PersistentShmChannel::open(storage, config).expect("open");
    assert_eq!(newcomer.recv().expect("recv"), Some(payload));
}
