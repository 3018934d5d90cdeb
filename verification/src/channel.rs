//! A channel for one producer and one consumer over a fixed-slot storage.

use crate::chunk::{chunk_room, largest_message, message_size_limits, MessageSizeLimits};
use crate::error::{ChannelError, DslineError};
use crate::frame::{misdeclared, renumbered, CHUNK_METADATA_LEN, FRAME_HEADER_LEN};
use crate::queue::{Outcome, QueueView};
use crate::region::FixedSlotRegion;
use crate::ring::{ReceivedMessage, Ring};
use crate::slot::{SlotRegion, SlotState, SlotView};
use crate::spsc::{seq_after, told_step, SendEvent, SendStep, SpscConfig};
use crate::storage::{
    can_allocate, storage_problem, told, FixedSlotStorage, MemorySlotStorage, StorageShape,
};
use vstd::prelude::*;

verus! {

/// A channel of byte messages. A message that does not fit in a slot is split over several.
#[derive(Debug)]
pub struct ShmSpscChannel<S: FixedSlotStorage = MemorySlotStorage> {
    ring: Ring<FixedSlotRegion<S>>,
}

/// Why a channel cannot be made over storage of this shape, if it cannot.
pub open spec fn channel_problem(config: SpscConfig, storage: StorageShape) -> Option<
    ChannelError,
> {
    if config.problem() is Some {
        config.problem()
    } else if config.slot_size + FRAME_HEADER_LEN > usize::MAX {
        Some(ChannelError::InvalidConfig("slot_size is too large"))
    } else if storage.capacity != config.capacity {
        Some(ChannelError::InvalidConfig("storage capacity mismatch"))
    } else if storage.slot_size < config.slot_size + FRAME_HEADER_LEN {
        Some(ChannelError::InvalidConfig("storage slot_size is too small"))
    } else {
        None
    }
}

/// Why a channel cannot be made in memory, if it cannot.
pub open spec fn memory_channel_problem(config: SpscConfig) -> Option<ChannelError> {
    if config.problem() is Some {
        config.problem()
    } else if config.slot_size + FRAME_HEADER_LEN > usize::MAX {
        Some(ChannelError::InvalidConfig("slot_size is too large"))
    } else {
        storage_problem(config.capacity, (config.slot_size + FRAME_HEADER_LEN) as usize)
    }
}

/// A channel without messages, over slots that hold the given bytes.
pub open spec fn empty_channel(config: SpscConfig, contents: Seq<Seq<u8>>) -> QueueView {
    QueueView {
        config,
        slots: Seq::new(
            config.capacity as nat,
            |i: int| SlotView { state: SlotState::Free, seq: 0, len: 0, body: contents[i] },
        ),
        len_range: usize::MAX as nat + 1,
        waits: false,
        head: 0,
        tail: 0,
        len: 0,
        next_seq: 0,
        expected_seq: 0,
        last_seq: None,
        closed: false,
        partial: None,
    }
}

/// Whether what was returned is the outcome given.
pub open spec fn is_received(r: Result<ReceivedMessage, DslineError>, outcome: Outcome) -> bool {
    match outcome {
        Outcome::Message { seq, payload } => r matches Ok(message) && message.seq == seq
            && message.payload@ == payload,
        Outcome::Failed(e) => r == Err::<ReceivedMessage, DslineError>(e),
        Outcome::Waiting => false,
    }
}

/// Whether the payload returned is the outcome given.
pub open spec fn is_payload(r: Result<Vec<u8>, DslineError>, outcome: Outcome) -> bool {
    match outcome {
        Outcome::Message { payload, .. } => r is Ok && r->Ok_0@ == payload,
        Outcome::Failed(e) => r == Err::<Vec<u8>, DslineError>(e),
        Outcome::Waiting => false,
    }
}

impl ShmSpscChannel<MemorySlotStorage> {
    /// An empty channel in memory, where the configuration allows it.
    pub fn new(config: SpscConfig) -> (r: Result<Self, DslineError>)
        requires
            config.slot_size + FRAME_HEADER_LEN <= usize::MAX ==> can_allocate(
                config.capacity,
                (config.slot_size + FRAME_HEADER_LEN) as usize,
            ),
        ensures
            match memory_channel_problem(config) {
                Some(e) => r == Err::<Self, DslineError>(DslineError::Channel(e)),
                None => {
                    &&& r matches Ok(channel)
                    &&& channel.wf()
                    &&& channel.stable()
                    &&& channel@ == empty_channel(
                        config,
                        Seq::new(
                            config.capacity as nat,
                            |i: int|
                                crate::slot::zeros(
                                    (config.slot_size + FRAME_HEADER_LEN) as nat,
                                ),
                        ),
                    )
                },
            },
    {
        match config.validate() {
            Err(e) => {
                return Err(e);
            },
            Ok(()) => {},
        }
        let region_slot_size: usize = match config.slot_size.checked_add(FRAME_HEADER_LEN) {
            Some(size) => size,
            None => {
                return Err(
                    DslineError::Channel(ChannelError::InvalidConfig("slot_size is too large")),
                );
            },
        };
        match MemorySlotStorage::new(config.capacity, region_slot_size) {
            Err(e) => Err(e),
            Ok(storage) => Self::with_storage(config, storage),
        }
    }
}

impl ShmSpscChannel<MemorySlotStorage> {
    /// A channel in memory is stable.
    pub proof fn law_memory_channel_is_stable(&self)
        requires
            self.wf(),
        ensures
            self.stable(),
    {
        self.ring.lemma_wf();
        self.ring.backing().law_memory_region_is_stable();
    }
}

impl<S: FixedSlotStorage> View for ShmSpscChannel<S> {
    type V = QueueView;

    closed spec fn view(&self) -> QueueView {
        self.ring@
    }
}

impl<S: FixedSlotStorage> ShmSpscChannel<S> {
    /// The channel is in a state in which it can be used.
    pub closed spec fn wf(&self) -> bool {
        self.ring.wf() && !self.ring@.waits
    }

    /// Whether the storage carries out every request and nobody else writes to it.
    pub closed spec fn stable(&self) -> bool {
        self.ring.shape().stable
    }

    /// How many bytes a slot of the storage has.
    pub closed spec fn spec_region_slot_size(&self) -> nat {
        self.ring.shape().frame_room
    }

    /// The error that a request to write failed with last, as far as the storage tells.
    pub closed spec fn fault(&self) -> Option<DslineError> {
        self.ring.fault()
    }

    /// The error that reading the slot at the tail gives, where the storage tells that it gives
    /// one.
    pub closed spec fn unreadable(&self) -> Option<DslineError> {
        self.ring.backing().unreadable(self.ring@.tail as usize)
    }

    /// What no operation changes.
    pub open spec fn same_settings(before: &Self, after: &Self) -> bool {
        &&& after.wf()
        &&& after.stable() == before.stable()
        &&& after.spec_region_slot_size() == before.spec_region_slot_size()
        &&& after@.config == before@.config
    }

    /// The configuration of a channel is valid, no more slots are in use than there are, and the
    /// positions lie inside. A slot has room for a frame of any payload that fits.
    pub proof fn law_channel_stays_in_bounds(&self)
        requires
            self.wf(),
        ensures
            self@.config.problem() is None,
            0 <= self@.len <= self@.config.capacity,
            0 <= self@.head < self@.config.capacity,
            0 <= self@.tail < self@.config.capacity,
            self@.partial is None,
            !self@.waits,
            self@.len_range == usize::MAX as nat + 1,
            self@.slots.len() == self@.config.capacity,
            self.spec_region_slot_size() >= self@.config.slot_size + FRAME_HEADER_LEN,
            self.stable() ==> forall|i: int|
                0 <= i < self@.slots.len() ==> #[trigger] self@.slots[i].body.len()
                    == self.spec_region_slot_size(),
    {
        self.ring.lemma_wf();
        self.ring.backing().law_region_shape();
        self.ring.backing().law_notes_describe_slots();
        if self.stable() {
            self.ring.backing().lemma_shape();
        }
    }

    /// An empty channel over a storage that has the slots that the configuration asks for.
    pub fn with_storage(config: SpscConfig, storage: S) -> (r: Result<Self, DslineError>)
        requires
            storage.valid(),
        ensures
            match channel_problem(config, storage.shape()) {
                Some(e) => r == Err::<Self, DslineError>(DslineError::Channel(e)),
                None => {
                    &&& r matches Ok(channel)
                    &&& channel.wf()
                    &&& channel.stable() == storage.shape().stable
                    &&& channel.fault() == storage.fault()
                    &&& channel.spec_region_slot_size() == storage.shape().slot_size
                    &&& channel@ == empty_channel(config, storage.contents())
                },
            },
    {
        match config.validate() {
            Err(e) => {
                return Err(e);
            },
            Ok(()) => {},
        }
        let minimum: usize = match config.slot_size.checked_add(FRAME_HEADER_LEN) {
            Some(size) => size,
            None => {
                return Err(
                    DslineError::Channel(ChannelError::InvalidConfig("slot_size is too large")),
                );
            },
        };
        if storage.capacity() != config.capacity {
            return Err(
                DslineError::Channel(ChannelError::InvalidConfig("storage capacity mismatch")),
            );
        }
        if storage.slot_size() < minimum {
            return Err(
                DslineError::Channel(ChannelError::InvalidConfig("storage slot_size is too small")),
            );
        }
        match FixedSlotRegion::with_storage(storage) {
            Err(e) => Err(e),
            Ok(region) => Ok(ShmSpscChannel { ring: Ring::new(config, region, false) }),
        }
    }

    /// Sends a message. While the channel is borrowed here nobody can make room, so a policy to
    /// wait fails at once when the channel is full.
    pub fn send(&mut self, bytes: &[u8]) -> (r: Result<(), DslineError>)
        requires
            old(self).wf(),
        ensures
            Self::same_settings(old(self), final(self)),
            told(old(self).fault(), final(self).fault(), r),
            final(self)@.closed == old(self)@.closed,
            final(self)@.last_seq == old(self)@.last_seq,
            final(self)@.next_seq == old(self)@.next_seq || final(self)@.next_seq == seq_after(
                old(self)@.next_seq,
            ),
            r is Ok && !(old(self)@.config.backpressure is DropNewest) ==> final(self)@.next_seq
                == seq_after(old(self)@.next_seq),
            old(self)@.is_decided(bytes@) ==> *final(self) == *old(self) && r == old(self)@.sent(
                bytes@,
            ).1,
            old(self).stable() ==> (final(self)@, r) == old(self)@.sent(bytes@),
    {
        self.ring.send(bytes)
    }

    /// Takes one step of sending a message with waiting for room. What happens while the caller
    /// waits, and how long, is up to the caller.
    pub fn send_step(&mut self, bytes: &[u8], event: SendEvent) -> (step: SendStep)
        requires
            old(self).wf(),
        ensures
            Self::same_settings(old(self), final(self)),
            told_step(old(self).fault(), final(self).fault(), step),
            final(self)@.closed == old(self)@.closed,
            final(self)@.last_seq == old(self)@.last_seq,
            event == SendEvent::TimedOut || old(self)@.is_decided(bytes@) ==> *final(self) == *old(
                self,
            ) && step == old(self)@.send_stepped(bytes@, event).1,
            step is Wait <==> event != SendEvent::TimedOut && old(self)@.has_to_wait(bytes@),
            old(self).stable() ==> (final(self)@, step) == old(self)@.send_stepped(bytes@, event),
    {
        self.ring.send_step(bytes, event)
    }

    /// Receives the payload of the oldest message.
    pub fn recv(&mut self) -> (r: Result<Vec<u8>, DslineError>)
        requires
            old(self).wf(),
        ensures
            Self::same_settings(old(self), final(self)),
            told(old(self).fault(), final(self).fault(), r),
            old(self)@.len > 0 ==> (old(self).unreadable() matches Some(e) ==> r == Err::<
                Vec<u8>,
                DslineError,
            >(e)),
            final(self)@.closed == old(self)@.closed,
            final(self)@.next_seq == old(self)@.next_seq,
            r is Ok ==> final(self)@.last_seq == Some(old(self)@.expected_seq)
                && final(self)@.expected_seq == seq_after(old(self)@.expected_seq),
            r is Err ==> final(self)@.last_seq == old(self)@.last_seq,
            old(self)@.len == 0 ==> *final(self) == *old(self) && is_payload(
                r,
                old(self)@.received().1,
            ),
            old(self).stable() ==> final(self)@ == old(self)@.received().0 && is_payload(
                r,
                old(self)@.received().1,
            ),
    {
        match self.recv_with_seq() {
            Ok(message) => Ok(message.payload),
            Err(e) => Err(e),
        }
    }

    /// Receives the oldest message with its sequence number.
    pub fn recv_with_seq(&mut self) -> (r: Result<ReceivedMessage, DslineError>)
        requires
            old(self).wf(),
        ensures
            Self::same_settings(old(self), final(self)),
            told(old(self).fault(), final(self).fault(), r),
            old(self)@.len > 0 ==> (old(self).unreadable() matches Some(e) ==> r == Err::<
                ReceivedMessage,
                DslineError,
            >(e)),
            final(self)@.closed == old(self)@.closed,
            final(self)@.next_seq == old(self)@.next_seq,
            r matches Ok(message) ==> {
                &&& message.seq == old(self)@.expected_seq
                &&& final(self)@.last_seq == Some(message.seq)
                &&& final(self)@.expected_seq == seq_after(old(self)@.expected_seq)
            },
            r is Err ==> final(self)@.last_seq == old(self)@.last_seq,
            old(self)@.len == 0 ==> *final(self) == *old(self) && is_received(
                r,
                old(self)@.received().1,
            ),
            old(self).stable() ==> final(self)@ == old(self)@.received().0 && is_received(
                r,
                old(self)@.received().1,
            ),
    {
        proof {
            self.ring.lemma_wf();
        }
        match self.ring.receive() {
            Ok(Some(message)) => Ok(message),
            Ok(None) => vstd::pervasive::unreached(),
            Err(e) => Err(e),
        }
    }

    /// Stops further sends. What is queued can still be received.
    pub fn close(&mut self)
        requires
            old(self).wf(),
        ensures
            Self::same_settings(old(self), final(self)),
            final(self).fault() == old(self).fault(),
            final(self)@ == (QueueView { closed: true, ..old(self)@ }),
    {
        self.ring.close();
    }

    pub fn is_closed(&self) -> (closed: bool)
        ensures
            closed == self@.closed,
    {
        self.ring.is_closed()
    }

    /// How many slots are in use.
    pub fn len(&self) -> (len: usize)
        ensures
            len == self@.len,
    {
        self.ring.len()
    }

    pub fn is_empty(&self) -> (empty: bool)
        ensures
            empty == (self@.len == 0),
    {
        self.ring.len() == 0
    }

    pub fn capacity(&self) -> (capacity: usize)
        ensures
            capacity == self@.config.capacity,
    {
        self.ring.config().capacity
    }

    /// How many bytes of payload fit in one slot.
    pub fn payload_slot_size(&self) -> (size: usize)
        ensures
            size == self@.config.slot_size,
    {
        self.ring.config().slot_size
    }

    /// How many bytes a slot of the storage has.
    pub fn region_slot_size(&self) -> (size: usize)
        requires
            self.wf(),
        ensures
            size == self.spec_region_slot_size(),
    {
        self.ring.region().slot_size()
    }

    pub fn next_sequence(&self) -> (seq: u64)
        ensures
            seq == self@.next_seq,
    {
        self.ring.next_sequence()
    }

    pub fn expected_recv_sequence(&self) -> (seq: u64)
        ensures
            seq == self@.expected_seq,
    {
        self.ring.expected_recv_sequence()
    }

    pub fn last_received_sequence(&self) -> (seq: Option<u64>)
        ensures
            seq == self@.last_seq,
    {
        self.ring.last_received_sequence()
    }

    /// The sizes that this channel can take.
    pub fn message_size_limits(&self) -> (limits: MessageSizeLimits)
        ensures
            limits.slot_size == self@.config.slot_size,
            limits.chunk_metadata_size == CHUNK_METADATA_LEN,
            limits.chunk_payload_size == chunk_room(self@.config),
            limits.max_message_size == largest_message(self@.config),
    {
        message_size_limits(self.ring.config())
    }

    /// Damages the oldest frame: the checksum that it declares becomes wrong.
    pub fn corrupt_tail_checksum_for_test(&mut self) -> (r: Result<(), DslineError>)
        requires
            old(self).wf(),
        ensures
            Self::same_settings(old(self), final(self)),
            told(old(self).fault(), final(self).fault(), r),
            old(self).stable() ==> match old(self)@.whole_frame() {
                Ok(bytes) => r is Ok && final(self)@ == old(self)@.rewritten(misdeclared(bytes)),
                Err(e) => r == Err::<(), DslineError>(e) && final(self)@ == old(self)@,
            },
    {
        self.ring.corrupt_oldest_checksum()
    }

    /// Damages the oldest frame: it gets another sequence number.
    pub fn corrupt_tail_frame_seq_for_test(&mut self, seq: u64) -> (r: Result<(), DslineError>)
        requires
            old(self).wf(),
        ensures
            Self::same_settings(old(self), final(self)),
            told(old(self).fault(), final(self).fault(), r),
            old(self).stable() ==> match old(self)@.whole_frame() {
                Ok(bytes) => r is Ok && final(self)@ == old(self)@.rewritten(
                    renumbered(bytes, seq),
                ),
                Err(e) => r == Err::<(), DslineError>(e) && final(self)@ == old(self)@,
            },
    {
        self.ring.renumber_oldest(seq)
    }

    /// Sets the sequence number that the next message will have.
    pub fn set_next_sequence_for_test(&mut self, seq: u64)
        requires
            old(self).wf(),
        ensures
            Self::same_settings(old(self), final(self)),
            final(self).fault() == old(self).fault(),
            final(self)@ == (QueueView { next_seq: seq, ..old(self)@ }),
    {
        self.ring.set_next_sequence(seq);
    }

    /// Sets the sequence number that the next message received must have.
    pub fn set_expected_recv_sequence_for_test(&mut self, seq: u64)
        requires
            old(self).wf(),
        ensures
            Self::same_settings(old(self), final(self)),
            final(self).fault() == old(self).fault(),
            final(self)@ == (QueueView { expected_seq: seq, ..old(self)@ }),
    {
        self.ring.set_expected_recv_sequence(seq);
    }
}

/// A new channel holds no messages.
pub proof fn law_new_channel_is_empty(config: SpscConfig, contents: Seq<Seq<u8>>)
    requires
        config.problem() is None,
        config.slot_size + FRAME_HEADER_LEN <= usize::MAX,
        forall|i: int|
            0 <= i < config.capacity ==> (#[trigger] contents[i]).len() >= config.slot_size
                + FRAME_HEADER_LEN,
    ensures
        empty_channel(config, contents).holds(seq![]),
{
}

/// A channel can be had over storage exactly where the configuration is valid, the storage has as
/// many slots, and each has room for a payload and the fifty bytes of a header.
pub proof fn law_channel_needs_fitting_storage(config: SpscConfig, storage: StorageShape)
    ensures
        channel_problem(config, storage) is None <==> {
            &&& config.capacity > 0
            &&& config.slot_size > 0
            &&& config.slot_size + 50 <= usize::MAX
            &&& storage.capacity == config.capacity
            &&& storage.slot_size >= config.slot_size + 50
        },
        memory_channel_problem(config) is None <==> {
            &&& config.capacity > 0
            &&& config.slot_size > 0
            &&& config.slot_size + 50 <= usize::MAX
            &&& config.capacity * (config.slot_size + 50) <= usize::MAX
        },
        config.capacity > 0 && config.slot_size > 0 && config.slot_size + 50 > usize::MAX
            ==> channel_problem(config, storage) == Some(
            ChannelError::InvalidConfig("slot_size is too large"),
        ) && memory_channel_problem(config) == Some(
            ChannelError::InvalidConfig("slot_size is too large"),
        ),
        config.capacity > 0 && config.slot_size > 0 && config.slot_size + 50 <= usize::MAX
            && storage.capacity != config.capacity ==> channel_problem(config, storage) == Some(
            ChannelError::InvalidConfig("storage capacity mismatch"),
        ),
        config.capacity > 0 && config.slot_size > 0 && config.slot_size + 50 <= usize::MAX
            && storage.capacity == config.capacity && storage.slot_size < config.slot_size + 50
            ==> channel_problem(config, storage) == Some(
            ChannelError::InvalidConfig("storage slot_size is too small"),
        ),
{
}

/// What is returned is what came out: the message with its number, byte for byte, or the error.
pub proof fn law_answer_is_what_came_out(
    message: Result<ReceivedMessage, DslineError>,
    bytes: Result<Vec<u8>, DslineError>,
    seq: u64,
    payload: Seq<u8>,
    error: DslineError,
)
    ensures
        is_received(message, Outcome::Message { seq, payload }) <==> message is Ok
            && message->Ok_0.seq == seq && message->Ok_0.payload@ == payload,
        is_received(message, Outcome::Failed(error)) <==> message is Err && message->Err_0 == error,
        !is_received(message, Outcome::Waiting),
        is_payload(bytes, Outcome::Message { seq, payload }) <==> bytes is Ok && bytes->Ok_0@
            == payload,
        is_payload(bytes, Outcome::Failed(error)) <==> bytes is Err && bytes->Err_0 == error,
        !is_payload(bytes, Outcome::Waiting),
{
}

} // verus!
