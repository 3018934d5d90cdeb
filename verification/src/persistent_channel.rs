//! A channel over slots that another process can open as well.

use crate::chunk::{
    chunk_room, largest_message, message_size_limits, planned, MessageSizeLimits,
};
use crate::error::{ChannelError, DslineError};
use crate::frame::{CHUNK_METADATA_LEN, FRAME_HEADER_LEN};
use crate::persistent::{
    free_header, slots_of, PersistentSlotRegion, PERSISTENT_SLOT_HEADER_LEN, SLOT_LEN_RANGE,
};
use crate::queue::{Outcome, QueueView};
use crate::ring::{is_outcome, ReceivedMessage, Ring};
use crate::slot::{RegionShape, SlotRegion, SlotView};
use crate::spsc::{told_step, SendEvent, SendStep, SpscConfig};
use crate::storage::{told, FixedSlotStorage, MemorySlotStorage, StorageShape};
use vstd::prelude::*;

verus! {

/// A channel of byte messages whose state lies in its slots. One process produces, another one
/// consumes.
#[derive(Debug)]
pub struct PersistentShmChannel<S: FixedSlotStorage> {
    ring: Ring<PersistentSlotRegion<S>>,
}

/// Why there is no slot size for a configuration, if there is none.
pub open spec fn slot_size_problem(config: SpscConfig) -> Option<ChannelError> {
    if config.problem() is Some {
        config.problem()
    } else if config.slot_size + FRAME_HEADER_LEN + PERSISTENT_SLOT_HEADER_LEN > usize::MAX {
        Some(ChannelError::InvalidConfig("slot_size is too large"))
    } else {
        None
    }
}

/// Why a channel cannot be had over storage of this shape, if it cannot.
pub open spec fn persistent_problem(config: SpscConfig, storage: StorageShape) -> Option<
    ChannelError,
> {
    if slot_size_problem(config) is Some {
        slot_size_problem(config)
    } else if storage.capacity != config.capacity {
        Some(ChannelError::InvalidConfig("storage capacity mismatch"))
    } else if storage.slot_size < config.slot_size + FRAME_HEADER_LEN
        + PERSISTENT_SLOT_HEADER_LEN {
        Some(ChannelError::InvalidConfig("storage slot_size is too small"))
    } else {
        None
    }
}

/// A channel that knows nothing yet but its slots.
pub open spec fn unread_channel(config: SpscConfig, slots: Seq<SlotView>) -> QueueView {
    QueueView {
        config,
        slots,
        len_range: SLOT_LEN_RANGE as nat,
        waits: true,
        head: 0,
        tail: 0,
        len: 0,
        next_seq: 0,
        expected_seq: 0,
        last_seq: None,
        closed: false,
        partial: None,
    }
}

/// Whether the payload returned is the outcome given.
pub open spec fn is_payload(r: Result<Option<Vec<u8>>, DslineError>, outcome: Outcome) -> bool {
    match outcome {
        Outcome::Message { payload, .. } => r matches Ok(Some(bytes)) && bytes@ == payload,
        Outcome::Waiting => r == Ok::<Option<Vec<u8>>, DslineError>(None),
        Outcome::Failed(e) => r == Err::<Option<Vec<u8>>, DslineError>(e),
    }
}

/// How many bytes a slot must have for a configuration: payload, frame header and slot header.
pub fn persistent_slot_size(config: &SpscConfig) -> (r: Result<usize, DslineError>)
    ensures
        match slot_size_problem(*config) {
            Some(e) => r == Err::<usize, DslineError>(DslineError::Channel(e)),
            None => r == Ok::<usize, DslineError>(
                (config.slot_size + FRAME_HEADER_LEN + PERSISTENT_SLOT_HEADER_LEN) as usize,
            ),
        },
{
    match config.validate() {
        Err(e) => {
            return Err(e);
        },
        Ok(()) => {},
    }
    match config.slot_size.checked_add(FRAME_HEADER_LEN + PERSISTENT_SLOT_HEADER_LEN) {
        Some(size) => Ok(size),
        None => Err(DslineError::Channel(ChannelError::InvalidConfig("slot_size is too large"))),
    }
}

impl<S: FixedSlotStorage> View for PersistentShmChannel<S> {
    type V = QueueView;

    closed spec fn view(&self) -> QueueView {
        self.ring@
    }
}

impl<S: FixedSlotStorage> PersistentShmChannel<S> {
    /// The channel is in a state in which it can be used.
    pub closed spec fn wf(&self) -> bool {
        self.ring.wf() && self.ring@.waits
    }

    /// Whether the storage carries out every request and nobody else writes to it.
    pub closed spec fn stable(&self) -> bool {
        self.ring.shape().stable
    }

    /// The error that a request to write failed with last, as far as the storage tells.
    pub closed spec fn fault(&self) -> Option<DslineError> {
        self.ring.fault()
    }

    /// Whether the storage tells that some slot cannot be read.
    pub closed spec fn has_unreadable(&self) -> bool {
        exists|i: usize|
            i < self.ring@.config.capacity && #[trigger] self.ring.backing().hidden(i) is Some
    }

    /// What no operation changes.
    pub open spec fn same_settings(before: &Self, after: &Self) -> bool {
        &&& after.wf()
        &&& after.stable() == before.stable()
        &&& after@.config == before@.config
    }

    /// The configuration of a channel is valid, no more slots are in use than there are, and the
    /// positions lie inside.
    pub proof fn law_channel_stays_in_bounds(&self)
        requires
            self.wf(),
        ensures
            self@.config.problem() is None,
            0 <= self@.len <= self@.config.capacity,
            0 <= self@.head < self@.config.capacity,
            0 <= self@.tail < self@.config.capacity,
            self@.waits,
            self@.len_range == SLOT_LEN_RANGE,
            self.stable() ==> self@.slots.len() == self@.config.capacity && forall|i: int|
                0 <= i < self@.slots.len() ==> #[trigger] self@.slots[i].body.len()
                    >= self@.config.slot_size + FRAME_HEADER_LEN,
    {
        self.ring.lemma_wf();
        self.ring.backing().law_region_shape();
        if self.stable() {
            self.ring.backing().lemma_shape();
        }
    }

    /// The slots of a storage, where it has those that the configuration asks for.
    fn region_for(config: &SpscConfig, storage: S) -> (r: Result<
        PersistentSlotRegion<S>,
        DslineError,
    >)
        requires
            storage.valid(),
        ensures
            match persistent_problem(*config, storage.shape()) {
                Some(e) => r == Err::<PersistentSlotRegion<S>, DslineError>(
                    DslineError::Channel(e),
                ),
                None => {
                    &&& r matches Ok(region)
                    &&& region.valid()
                    &&& region.slots() == slots_of(storage.contents())
                    &&& region.fault() == storage.fault()
                    &&& region.shape() == (RegionShape {
                        capacity: config.capacity as nat,
                        frame_room: (storage.shape().slot_size - PERSISTENT_SLOT_HEADER_LEN) as nat,
                        len_range: SLOT_LEN_RANGE as nat,
                        stable: storage.shape().stable,
                    })
                },
            },
    {
        let minimum: usize = match persistent_slot_size(config) {
            Ok(size) => size,
            Err(e) => {
                return Err(e);
            },
        };
        if storage.capacity() != config.capacity {
            return Err(
                DslineError::Channel(ChannelError::InvalidConfig("storage capacity mismatch")),
            );
        }
        if storage.slot_size() < minimum {
            return Err(
                DslineError::Channel(ChannelError::InvalidConfig("storage slot_size is too small")),
            );
        }
        PersistentSlotRegion::with_storage(storage)
    }

    /// An empty channel: every slot of the storage is marked as free.
    pub fn create(storage: S, config: SpscConfig) -> (r: Result<Self, DslineError>)
        requires
            storage.valid(),
        ensures
            r matches Ok(channel) ==> channel.wf() && channel.stable() == storage.shape().stable
                && channel.fault() == storage.fault(),
            match persistent_problem(config, storage.shape()) {
                Some(e) => r == Err::<Self, DslineError>(DslineError::Channel(e)),
                None => storage.shape().stable ==> r is Ok && r->Ok_0@ == unread_channel(
                    config,
                    slots_of(storage.contents()).map_values(|slot: SlotView| free_header(slot)),
                ),
            },
    {
        let mut region = match Self::region_for(&config, storage) {
            Ok(region) => region,
            Err(e) => {
                return Err(e);
            },
        };
        let ghost slots = region.slots();
        let ghost freed = slots.map_values(|slot: SlotView| free_header(slot));
        let mut index: usize = 0;
        proof {
            if region.shape().stable {
                region.lemma_shape();
            }
        }
        while index < config.capacity
            invariant
                index <= config.capacity,
                persistent_problem(config, storage.shape()) is None,
                region.valid(),
                region.shape().capacity == config.capacity,
                region.shape().frame_room == storage.shape().slot_size - PERSISTENT_SLOT_HEADER_LEN,
                region.shape().len_range == SLOT_LEN_RANGE,
                region.shape().stable == storage.shape().stable,
                region.fault() == storage.fault(),
                freed == slots.map_values(|slot: SlotView| free_header(slot)),
                region.shape().stable ==> slots.len() == config.capacity && region.slots()
                    == freed.take(index as int) + slots.skip(index as int),
            decreases config.capacity - index,
        {
            match region.reset(index) {
                Err(e) => {
                    return Err(e);
                },
                Ok(()) => {},
            }
            proof {
                assert(region.shape().stable ==> region.slots() =~= freed.take(index + 1)
                    + slots.skip(index + 1));
            }
            index += 1;
        }
        proof {
            assert(region.shape().stable ==> region.slots() =~= freed);
        }
        Ok(PersistentShmChannel { ring: Ring::new(config, region, true) })
    }

    /// A channel over slots that are in use already: the positions are found from what they hold.
    pub fn open(storage: S, config: SpscConfig) -> (r: Result<Self, DslineError>)
        requires
            storage.valid(),
        ensures
            r matches Ok(channel) ==> channel.wf() && channel.stable() == storage.shape().stable
                && channel.fault() == storage.fault(),
            match persistent_problem(config, storage.shape()) {
                Some(e) => r == Err::<Self, DslineError>(DslineError::Channel(e)),
                None => storage.shape().stable ==> r is Ok && r->Ok_0@ == unread_channel(
                    config,
                    slots_of(storage.contents()),
                ).refreshed(),
            },
    {
        let region = match Self::region_for(&config, storage) {
            Ok(region) => region,
            Err(e) => {
                return Err(e);
            },
        };
        let mut ring = Ring::new(config, region, true);
        match ring.refresh() {
            Ok(()) => Ok(PersistentShmChannel { ring }),
            Err(e) => Err(e),
        }
    }

    /// Sends a message. Under the policy to wait it fails when there is no room: the caller
    /// waits, and tries again.
    pub fn send(&mut self, bytes: &[u8]) -> (r: Result<(), DslineError>)
        requires
            old(self).wf(),
        ensures
            Self::same_settings(old(self), final(self)),
            told(old(self).fault(), final(self).fault(), r),
            !old(self)@.closed && old(self).has_unreadable() ==> r is Err,
            final(self)@.closed == old(self)@.closed,
            old(self)@.closed ==> *final(self) == *old(self) && r == Err::<(), DslineError>(
                DslineError::Channel(ChannelError::Closed),
            ),
            final(self)@.last_seq == old(self)@.last_seq,
            planned(old(self)@.config, bytes@.len()) is Err ==> r is Err,
            old(self).stable() ==> (final(self)@, r) == old(self)@.shared_sent(bytes@),
    {
        if self.ring.is_closed() {
            return Err(DslineError::Channel(ChannelError::Closed));
        }
        match self.ring.refresh() {
            Err(e) => {
                return Err(e);
            },
            Ok(()) => {},
        }
        self.ring.send(bytes)
    }

    /// Takes one step of sending a message with waiting for room: the slots are looked at afresh,
    /// and the message is sent if it need not wait. How long to wait is up to the caller.
    pub fn send_step(&mut self, bytes: &[u8], event: SendEvent) -> (step: SendStep)
        requires
            old(self).wf(),
        ensures
            Self::same_settings(old(self), final(self)),
            told_step(old(self).fault(), final(self).fault(), step),
            final(self)@.closed == old(self)@.closed,
            final(self)@.last_seq == old(self)@.last_seq,
            event == SendEvent::TimedOut || old(self)@.closed ==> *final(self) == *old(self)
                && step == old(self)@.send_stepped(bytes@, event).1,
            step is Wait ==> event != SendEvent::TimedOut && final(self)@.has_to_wait(bytes@),
            planned(old(self)@.config, bytes@.len()) is Err ==> (step matches SendStep::Done(
                r,
            ) && r is Err),
            old(self).stable() ==> (final(self)@, step) == old(self)@.shared_send_stepped(
                bytes@,
                event,
            ),
    {
        if event != SendEvent::TimedOut && !self.ring.is_closed() {
            match self.ring.refresh() {
                Err(e) => {
                    return SendStep::Done(Err(e));
                },
                Ok(()) => {},
            }
        }
        self.ring.send_step(bytes, event)
    }

    /// Receives the payload of the oldest message. Nothing comes out while its slot is still
    /// being written: the caller waits, and asks again.
    pub fn recv(&mut self) -> (r: Result<Option<Vec<u8>>, DslineError>)
        requires
            old(self).wf(),
        ensures
            Self::same_settings(old(self), final(self)),
            told(old(self).fault(), final(self).fault(), r),
            old(self)@.partial is None && old(self).has_unreadable() ==> r is Err,
            final(self)@.closed == old(self)@.closed,
            r matches Ok(Some(_)) ==> final(self)@.last_seq is Some,
            !(r matches Ok(Some(_))) ==> final(self)@.last_seq == old(self)@.last_seq,
            old(self).stable() ==> final(self)@ == old(self)@.shared_received().0 && is_payload(
                r,
                old(self)@.shared_received().1,
            ),
    {
        match self.recv_with_seq() {
            Ok(Some(message)) => Ok(Some(message.payload)),
            Ok(None) => Ok(None),
            Err(e) => Err(e),
        }
    }

    /// Receives the oldest message with its sequence number. Nothing comes out while its slot is
    /// still being written: the caller waits, and asks again. Chunks that have been received by
    /// then are kept.
    pub fn recv_with_seq(&mut self) -> (r: Result<Option<ReceivedMessage>, DslineError>)
        requires
            old(self).wf(),
        ensures
            Self::same_settings(old(self), final(self)),
            told(old(self).fault(), final(self).fault(), r),
            old(self)@.partial is None && old(self).has_unreadable() ==> r is Err,
            final(self)@.closed == old(self)@.closed,
            r matches Ok(Some(message)) ==> final(self)@.last_seq == Some(message.seq),
            !(r matches Ok(Some(_))) ==> final(self)@.last_seq == old(self)@.last_seq,
            old(self).stable() ==> final(self)@ == old(self)@.shared_received().0 && is_outcome(
                r,
                old(self)@.shared_received().1,
            ),
    {
        if !self.ring.has_partial() {
            match self.ring.refresh() {
                Err(e) => {
                    return Err(e);
                },
                Ok(()) => {},
            }
        }
        self.ring.receive()
    }

    /// Stops further sends from here. What is queued can still be received.
    pub fn close(&mut self)
        requires
            old(self).wf(),
        ensures
            Self::same_settings(old(self), final(self)),
            final(self).fault() == old(self).fault(),
            final(self)@ == (QueueView { closed: true, ..old(self)@ }),
    {
        self.ring.close();
    }

    /// Finds the positions again from what the slots hold.
    pub fn refresh(&mut self) -> (r: Result<(), DslineError>)
        requires
            old(self).wf(),
        ensures
            Self::same_settings(old(self), final(self)),
            told(old(self).fault(), final(self).fault(), r),
            old(self).has_unreadable() ==> r is Err,
            final(self)@.closed == old(self)@.closed,
            r is Err ==> *final(self) == *old(self),
            old(self).stable() ==> final(self)@ == old(self)@.refreshed() && r == Ok::<
                (),
                DslineError,
            >(()),
    {
        self.ring.refresh()
    }

    pub fn is_closed(&self) -> (closed: bool)
        ensures
            closed == self@.closed,
    {
        self.ring.is_closed()
    }

    /// How many slots were in use when the slots were last looked at.
    pub fn len(&self) -> (len: usize)
        ensures
            len == self@.len,
    {
        self.ring.len()
    }

    pub fn is_empty(&self) -> (empty: bool)
        ensures
            empty == (self@.len == 0),
    {
        self.ring.len() == 0
    }

    pub fn capacity(&self) -> (capacity: usize)
        ensures
            capacity == self@.config.capacity,
    {
        self.ring.config().capacity
    }

    /// How many bytes of payload fit in one slot.
    pub fn payload_slot_size(&self) -> (size: usize)
        ensures
            size == self@.config.slot_size,
    {
        self.ring.config().slot_size
    }

    pub fn next_sequence(&self) -> (seq: u64)
        ensures
            seq == self@.next_seq,
    {
        self.ring.next_sequence()
    }

    pub fn expected_recv_sequence(&self) -> (seq: u64)
        ensures
            seq == self@.expected_seq,
    {
        self.ring.expected_recv_sequence()
    }

    pub fn last_received_sequence(&self) -> (seq: Option<u64>)
        ensures
            seq == self@.last_seq,
    {
        self.ring.last_received_sequence()
    }

    /// The sizes that this channel can take.
    pub fn message_size_limits(&self) -> (limits: MessageSizeLimits)
        ensures
            limits.slot_size == self@.config.slot_size,
            limits.chunk_metadata_size == CHUNK_METADATA_LEN,
            limits.chunk_payload_size == chunk_room(self@.config),
            limits.max_message_size == largest_message(self@.config),
    {
        message_size_limits(self.ring.config())
    }

    /// The configuration.
    pub fn config(&self) -> (config: &SpscConfig)
        ensures
            *config == self@.config,
    {
        self.ring.config()
    }
}

/// A channel over slots that were all marked as free holds no messages. Its slots must not be
/// larger than the length in a slot header can tell.
pub proof fn law_created_channel_is_empty(config: SpscConfig, contents: Seq<Seq<u8>>)
    requires
        config.problem() is None,
        config.slot_size + FRAME_HEADER_LEN < SLOT_LEN_RANGE,
        contents.len() == config.capacity,
        forall|i: int|
            0 <= i < contents.len() ==> (#[trigger] contents[i]).len() >= config.slot_size
                + FRAME_HEADER_LEN + PERSISTENT_SLOT_HEADER_LEN,
    ensures
        unread_channel(
            config,
            slots_of(contents).map_values(|slot: SlotView| free_header(slot)),
        ).holds(seq![]),
{
    let slots = slots_of(contents).map_values(|slot: SlotView| free_header(slot));
    assert forall|i: int| 0 <= i < slots.len() implies #[trigger] slots[i].body.len()
        >= config.slot_size + FRAME_HEADER_LEN by {
        assert(contents[i].len() >= config.slot_size + FRAME_HEADER_LEN
            + PERSISTENT_SLOT_HEADER_LEN);
    }
}

impl PersistentShmChannel<MemorySlotStorage> {
    /// A channel in memory is stable.
    pub proof fn law_memory_channel_is_stable(&self)
        requires
            self.wf(),
        ensures
            self.stable(),
    {
        self.ring.lemma_wf();
        self.ring.backing().law_memory_region_is_stable();
    }
}

/// A channel over shared slots can be had exactly where the configuration is valid, the storage has
/// as many slots, and each has room for a payload, the fifty bytes of a frame header and the
/// thirteen of a slot header.
pub proof fn law_shared_channel_needs_fitting_storage(config: SpscConfig, storage: StorageShape)
    ensures
        slot_size_problem(config) is None <==> config.capacity > 0 && config.slot_size > 0
            && config.slot_size + 63 <= usize::MAX,
        persistent_problem(config, storage) is None <==> {
            &&& config.capacity > 0
            &&& config.slot_size > 0
            &&& config.slot_size + 63 <= usize::MAX
            &&& storage.capacity == config.capacity
            &&& storage.slot_size >= config.slot_size + 63
        },
        config.capacity > 0 && config.slot_size > 0 && config.slot_size + 63 > usize::MAX
            ==> persistent_problem(config, storage) == Some(
            ChannelError::InvalidConfig("slot_size is too large"),
        ),
        config.capacity > 0 && config.slot_size > 0 && config.slot_size + 63 <= usize::MAX
            && storage.capacity != config.capacity ==> persistent_problem(config, storage) == Some(
            ChannelError::InvalidConfig("storage capacity mismatch"),
        ),
        config.capacity > 0 && config.slot_size > 0 && config.slot_size + 63 <= usize::MAX
            && storage.capacity == config.capacity && storage.slot_size < config.slot_size + 63
            ==> persistent_problem(config, storage) == Some(
            ChannelError::InvalidConfig("storage slot_size is too small"),
        ),
{
}

/// What is returned is what came out: the bytes of the message, nothing while its slot is being
/// written, or the error.
pub proof fn law_shared_answer_is_what_came_out(
    message: Result<Option<ReceivedMessage>, DslineError>,
    bytes: Result<Option<Vec<u8>>, DslineError>,
    seq: u64,
    payload: Seq<u8>,
    error: DslineError,
)
    ensures
        is_outcome(message, Outcome::Message { seq, payload }) <==> message is Ok
            && message->Ok_0 is Some && message->Ok_0->0.seq == seq && message->Ok_0->0.payload@
            == payload,
        is_outcome(message, Outcome::Waiting) <==> message is Ok && message->Ok_0 is None,
        is_outcome(message, Outcome::Failed(error)) <==> message is Err && message->Err_0 == error,
        is_payload(bytes, Outcome::Message { seq, payload }) <==> bytes is Ok && bytes->Ok_0 is Some
            && bytes->Ok_0->0@ == payload,
        is_payload(bytes, Outcome::Waiting) <==> bytes is Ok && bytes->Ok_0 is None,
        is_payload(bytes, Outcome::Failed(error)) <==> bytes is Err && bytes->Err_0 == error,
{
}

} // verus!
