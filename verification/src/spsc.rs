//! Channel configuration and an in-process ring of framed messages.

use crate::checksum::{checksum32, fnv1a, law_checksum_detects_a_changed_byte};
use crate::error::{ChannelError, DslineError, ProtocolError};
use crate::frame::{
    decode_frame, encode_frame, frame_bytes, frame_for, items, law_frame_round_trip,
    lemma_frame_bytes_len, misdeclare_checksum, misdeclared, parsed_frame, FrameKind, FrameView,
    Metadata, FRAME_HEADER_LEN,
};
use crate::storage::told;
use std::collections::VecDeque;
use std::time::Duration;
use vstd::prelude::*;

verus! {

/// What a send does when there is no room.
#[derive(Debug, Clone, Copy, PartialEq, Eq, Structural)]
pub enum Backpressure {
    /// Wait for room until the configured timeout, then fail.
    Block,
    /// Fail at once.
    Raise,
    /// Discard the incoming message.
    DropNewest,
    /// Discard the oldest queued messages until the incoming one fits.
    DropOldest,
}

/// How a channel is sized and what it does when full.
#[derive(Debug, Clone, PartialEq, Eq)]
pub struct SpscConfig {
    pub capacity: usize,
    pub slot_size: usize,
    pub backpressure: Backpressure,
    pub timeout: Option<Duration>,
}

impl SpscConfig {
    /// What is wrong with a configuration, if anything.
    pub open spec fn problem(self) -> Option<ChannelError> {
        if self.capacity == 0 {
            Some(ChannelError::InvalidConfig("capacity must be greater than zero"))
        } else if self.slot_size == 0 {
            Some(ChannelError::InvalidConfig("slot_size must be greater than zero"))
        } else {
            None
        }
    }

    /// Checks that there is at least one slot and that a slot holds at least one byte.
    pub fn validate(&self) -> (r: Result<(), DslineError>)
        ensures
            r == match self.problem() {
                Some(e) => Err::<(), DslineError>(DslineError::Channel(e)),
                None => Ok(()),
            },
    {
        if self.capacity == 0 {
            return Err(
                DslineError::Channel(
                    ChannelError::InvalidConfig("capacity must be greater than zero"),
                ),
            );
        }
        if self.slot_size == 0 {
            return Err(
                DslineError::Channel(
                    ChannelError::InvalidConfig("slot_size must be greater than zero"),
                ),
            );
        }
        Ok(())
    }

    /// Whether a sender may wait for room: the policy is to wait, and there is a timeout.
    pub open spec fn may_wait(self) -> bool {
        self.backpressure == Backpressure::Block && self.timeout is Some
    }

    /// How long a sender may wait for room: the timeout, where the policy is to wait.
    pub fn wait_limit(&self) -> (limit: Option<Duration>)
        ensures
            limit == if self.backpressure == Backpressure::Block {
                self.timeout
            } else {
                None
            },
            limit is Some <==> self.may_wait(),
    {
        match self.backpressure {
            Backpressure::Block => self.timeout,
            _ => None,
        }
    }
}

/// What a sender that may wait knows.
#[derive(Debug, Clone, Copy, PartialEq, Eq, Structural)]
pub enum SendEvent {
    /// The message has not been tried yet.
    Start,
    /// It has been waited for room, and there is time left.
    InTime,
    /// It has been waited for room, and the time is up.
    TimedOut,
}

/// What a sender that may wait is to do.
#[derive(Debug, PartialEq, Eq)]
pub enum SendStep {
    /// Nothing more: this is the answer.
    Done(Result<(), DslineError>),
    /// Wait a moment, and tell whether there is time left.
    Wait,
}

/// Whether a step that may have failed is answered with the failure: there is no new one, or it is
/// the answer.
pub open spec fn told_step(
    before: Option<DslineError>,
    after: Option<DslineError>,
    step: SendStep,
) -> bool {
    match step {
        SendStep::Wait => after == before,
        SendStep::Done(r) => told(before, after, r),
    }
}

/// The frame of a message that is not split: its kind is bytes and it has no metadata.
pub open spec fn plain_frame(seq: u64, payload: Seq<u8>) -> FrameView {
    frame_for(FrameKind::Bytes, 0, seq, 0, 0, seq![], payload)
}

/// Whether a frame is of kind bytes and its payload has the checksum it declares.
pub open spec fn is_intact(frame: FrameView) -> bool {
    frame.header.kind == FrameKind::Bytes && fnv1a(frame.payload) == frame.header.checksum
}

/// The payload of an encoded message, or why there is none.
pub open spec fn payload_of(bytes: Seq<u8>) -> Result<Seq<u8>, DslineError> {
    match parsed_frame(bytes) {
        Err(e) => Err(DslineError::Protocol(e)),
        Ok(frame) => if is_intact(frame) {
            Ok(frame.payload)
        } else {
            Err(DslineError::Channel(ChannelError::CorruptedMessage))
        },
    }
}

/// Encodes a message that is not split.
pub fn encode_plain(seq: u64, payload: &[u8]) -> (out: Vec<u8>)
    ensures
        out@ == frame_bytes(plain_frame(seq, payload@)),
        out@.len() == FRAME_HEADER_LEN + payload@.len(),
{
    let none: Vec<Metadata> = Vec::new();
    proof {
        assert(items(none@) =~= seq![]);
        lemma_frame_bytes_len(plain_frame(seq, payload@));
    }
    match encode_frame(FrameKind::Bytes, 0, seq, 0, 0, none.as_slice(), payload) {
        Ok(out) => out,
        Err(_) => vstd::pervasive::unreached(),
    }
}

#[derive(Debug, Clone, PartialEq, Eq)]
struct Slot {
    frame: Vec<u8>,
}

/// What a ring holds: the encoded messages, oldest first, and its settings.
#[verifier::ext_equal]
pub struct RingView {
    pub config: SpscConfig,
    pub frames: Seq<Seq<u8>>,
    pub next_seq: u64,
    pub closed: bool,
}

impl RingView {
    /// Whether the ring holds these messages, oldest first, with consecutive sequence numbers.
    pub open spec fn holds(self, messages: Seq<Seq<u8>>) -> bool {
        &&& self.frames.len() == messages.len()
        &&& forall|i: int|
            0 <= i < messages.len() ==> #[trigger] self.frames[i] == frame_bytes(
                plain_frame(seq_back(self.next_seq, messages.len() - i), messages[i]),
            )
        &&& forall|i: int|
            0 <= i < messages.len() ==> #[trigger] messages[i].len() <= self.config.slot_size
    }

    /// The ring with one more message at its end.
    pub open spec fn with_message(self, payload: Seq<u8>) -> RingView {
        RingView {
            frames: self.frames.push(frame_bytes(plain_frame(self.next_seq, payload))),
            next_seq: seq_after(self.next_seq),
            ..self
        }
    }

    /// What sending does: the ring afterwards, and the error if there is one.
    pub open spec fn sent(self, payload: Seq<u8>) -> (RingView, Result<(), DslineError>) {
        let full = self.frames.len() >= self.config.capacity;
        if self.closed {
            (self, Err(DslineError::Channel(ChannelError::Closed)))
        } else if payload.len() > self.config.slot_size {
            (
                self,
                Err(
                    DslineError::Channel(
                        ChannelError::MessageTooLarge {
                            len: payload.len() as usize,
                            slot_size: self.config.slot_size,
                        },
                    ),
                ),
            )
        } else if !full {
            (self.with_message(payload), Ok(()))
        } else {
            match self.config.backpressure {
                Backpressure::Block | Backpressure::Raise => (
                    self,
                    Err(DslineError::Channel(ChannelError::BufferFull)),
                ),
                Backpressure::DropNewest => (self, Ok(())),
                Backpressure::DropOldest => (
                    RingView { frames: self.frames.skip(1), ..self }.with_message(payload),
                    Ok(()),
                ),
            }
        }
    }

    /// What receiving does: the ring afterwards, and the oldest message or the error.
    pub open spec fn received(self) -> (RingView, Result<Seq<u8>, DslineError>) {
        if self.frames.len() == 0 {
            let error = if self.closed {
                ChannelError::Closed
            } else {
                ChannelError::BufferEmpty
            };
            (self, Err(DslineError::Channel(error)))
        } else {
            (RingView { frames: self.frames.skip(1), ..self }, payload_of(self.frames[0]))
        }
    }
}

/// The sequence number after another; after the largest comes zero.
pub open spec fn seq_after(seq: u64) -> u64 {
    if seq == u64::MAX {
        0
    } else {
        (seq + 1) as u64
    }
}

/// The sequence number that lies `n` before another.
pub open spec fn seq_back(seq: u64, n: int) -> u64 {
    ((seq - n) % 0x1_0000_0000_0000_0000) as u64
}

/// A fixed-slot ring of byte messages for one producer and one consumer in one process.
#[derive(Debug)]
pub struct SpscBytesRing {
    config: SpscConfig,
    queue: VecDeque<Slot>,
    next_seq: u64,
    closed: bool,
}

impl View for SpscBytesRing {
    type V = RingView;

    closed spec fn view(&self) -> RingView {
        RingView {
            config: self.config,
            frames: self.queue@.map_values(|slot: Slot| slot.frame@),
            next_seq: self.next_seq,
            closed: self.closed,
        }
    }
}

impl SpscBytesRing {
    /// The ring has room for a message, no more messages than slots, and each is a whole header.
    pub closed spec fn wf(&self) -> bool {
        &&& self.config.problem() is None
        &&& self.queue@.len() <= self.config.capacity
        &&& forall|i: int|
            0 <= i < self.queue@.len() ==> #[trigger] self.queue@[i].frame@.len()
                >= FRAME_HEADER_LEN
    }

    /// The configuration of a ring is valid, and the ring holds no more messages than it has slots.
    pub proof fn law_ring_stays_in_bounds(&self)
        requires
            self.wf(),
        ensures
            self@.config.problem() is None,
            self@.frames.len() <= self@.config.capacity,
            forall|i: int|
                0 <= i < self@.frames.len() ==> #[trigger] self@.frames[i].len()
                    >= FRAME_HEADER_LEN,
    {
    }

    /// An empty ring, where the configuration is valid.
    pub fn new(config: SpscConfig) -> (r: Result<SpscBytesRing, DslineError>)
        ensures
            match config.problem() {
                Some(e) => r == Err::<SpscBytesRing, DslineError>(DslineError::Channel(e)),
                None => r matches Ok(ring) && ring.wf() && ring@ == (RingView {
                    config,
                    frames: seq![],
                    next_seq: 0,
                    closed: false,
                }),
            },
    {
        match config.validate() {
            Err(e) => Err(e),
            Ok(()) => {
                let queue: VecDeque<Slot> = VecDeque::new();
                proof {
                    assert(queue@.map_values(|slot: Slot| slot.frame@) =~= seq![]);
                }
                Ok(SpscBytesRing { config, queue, next_seq: 0, closed: false })
            },
        }
    }

    /// Puts a message at the end of the ring. A full ring cannot gain room while it is
    /// borrowed here, so a policy to wait fails at once.
    pub fn send(&mut self, bytes: &[u8]) -> (r: Result<(), DslineError>)
        requires
            old(self).wf(),
        ensures
            final(self).wf(),
            (final(self)@, r) == old(self)@.sent(bytes@),
    {
        if self.closed {
            return Err(DslineError::Channel(ChannelError::Closed));
        }
        if bytes.len() > self.config.slot_size {
            return Err(
                DslineError::Channel(
                    ChannelError::MessageTooLarge {
                        len: bytes.len(),
                        slot_size: self.config.slot_size,
                    },
                ),
            );
        }
        if self.queue.len() >= self.config.capacity {
            match self.config.backpressure {
                Backpressure::Block | Backpressure::Raise => {
                    return Err(DslineError::Channel(ChannelError::BufferFull));
                },
                Backpressure::DropNewest => {
                    return Ok(());
                },
                Backpressure::DropOldest => {
                    let _dropped = self.queue.pop_front();
                    proof {
                        assert(self@.frames =~= old(self)@.frames.skip(1));
                    }
                },
            }
        }
        let seq: u64 = self.next_seq;
        self.next_seq = self.next_seq.wrapping_add(1);
        let frame = encode_plain(seq, bytes);
        let ghost before = self@.frames;
        self.queue.push_back(Slot { frame });
        proof {
            assert(self@.frames =~= before.push(frame@));
        }
        Ok(())
    }

    /// Takes the oldest message. One that is damaged is taken and lost.
    pub fn recv(&mut self) -> (r: Result<Vec<u8>, DslineError>)
        requires
            old(self).wf(),
        ensures
            final(self).wf(),
            final(self)@ == old(self)@.received().0,
            match old(self)@.received().1 {
                Ok(payload) => r is Ok && r->Ok_0@ == payload,
                Err(e) => r == Err::<Vec<u8>, DslineError>(e),
            },
    {
        if self.closed && self.queue.len() == 0 {
            return Err(DslineError::Channel(ChannelError::Closed));
        }
        let slot = match self.queue.pop_front() {
            Some(slot) => slot,
            None => {
                return Err(DslineError::Channel(ChannelError::BufferEmpty));
            },
        };
        proof {
            assert(self@.frames =~= old(self)@.frames.skip(1));
            assert(old(self)@.frames[0] == slot.frame@);
        }
        let frame = match decode_frame(slot.frame.as_slice()) {
            Ok(frame) => frame,
            Err(e) => {
                return Err(e);
            },
        };
        if frame.header.kind != FrameKind::Bytes || checksum32(frame.payload.as_slice())
            != frame.header.checksum {
            return Err(DslineError::Channel(ChannelError::CorruptedMessage));
        }
        Ok(frame.payload)
    }

    /// Stops further sends. What is queued can still be received.
    pub fn close(&mut self)
        requires
            old(self).wf(),
        ensures
            final(self).wf(),
            final(self)@ == (RingView { closed: true, ..old(self)@ }),
    {
        self.closed = true;
    }

    pub fn is_closed(&self) -> (closed: bool)
        ensures
            closed == self@.closed,
    {
        self.closed
    }

    pub fn len(&self) -> (len: usize)
        ensures
            len == self@.frames.len(),
    {
        self.queue.len()
    }

    pub fn is_empty(&self) -> (empty: bool)
        ensures
            empty <==> self@.frames.len() == 0,
    {
        self.queue.len() == 0
    }

    pub fn capacity(&self) -> (capacity: usize)
        ensures
            capacity == self@.config.capacity,
    {
        self.config.capacity
    }

    /// Damages the oldest message: the checksum that it declares becomes wrong.
    pub fn corrupt_next_checksum_for_test(&mut self)
        requires
            old(self).wf(),
        ensures
            final(self).wf(),
            final(self)@ == (RingView {
                frames: if old(self)@.frames.len() == 0 {
                    old(self)@.frames
                } else {
                    old(self)@.frames.update(0, misdeclared(old(self)@.frames[0]))
                },
                ..old(self)@
            }),
    {
        match self.queue.pop_front() {
            None => {},
            Some(slot) => {
                let frame = misdeclare_checksum(slot.frame.as_slice());
                self.queue.push_front(Slot { frame });
                proof {
                    assert(self@.frames =~= old(self)@.frames.update(0, frame@));
                }
            },
        }
    }

    /// The sequence number that the next message will have.
    pub fn next_seq_for_test(&self) -> (seq: u64)
        ensures
            seq == self@.next_seq,
    {
        self.next_seq
    }

    /// Sets the sequence number that the next message will have.
    pub fn set_next_seq_for_test(&mut self, seq: u64)
        requires
            old(self).wf(),
        ensures
            final(self).wf(),
            final(self)@ == (RingView { next_seq: seq, ..old(self)@ }),
    {
        self.next_seq = seq;
    }
}

/// A message that is not split is read back from its frame.
pub proof fn lemma_plain_round_trip(seq: u64, payload: Seq<u8>)
    requires
        payload.len() <= u64::MAX,
    ensures
        parsed_frame(frame_bytes(plain_frame(seq, payload))) == Ok::<FrameView, ProtocolError>(
            plain_frame(seq, payload),
        ),
        payload_of(frame_bytes(plain_frame(seq, payload))) == Ok::<Seq<u8>, DslineError>(payload),
{
    law_frame_round_trip(FrameKind::Bytes, 0, seq, 0, 0, seq![], payload);
}

/// A frame that is intact is no longer so when any one byte of its payload has changed.
pub proof fn law_changed_payload_is_not_intact(frame: FrameView, index: int, byte: u8)
    requires
        is_intact(frame),
        0 <= index < frame.payload.len(),
        byte != frame.payload[index],
    ensures
        !is_intact(FrameView { payload: frame.payload.update(index, byte), ..frame }),
{
    law_checksum_detects_a_changed_byte(frame.payload, index, byte);
}

/// A message that fits is accepted while there is room, and stands behind all others.
pub proof fn law_ring_send_appends(ring: RingView, messages: Seq<Seq<u8>>, payload: Seq<u8>)
    requires
        ring.holds(messages),
        !ring.closed,
        payload.len() <= ring.config.slot_size,
        messages.len() < ring.config.capacity,
    ensures
        ring.sent(payload).1 == Ok::<(), DslineError>(()),
        ring.sent(payload).0.holds(messages.push(payload)),
{
    let after = ring.sent(payload).0;
    let longer = messages.push(payload);
    assert forall|i: int| 0 <= i < longer.len() implies #[trigger] after.frames[i] == frame_bytes(
        plain_frame(seq_back(after.next_seq, longer.len() - i), longer[i]),
    ) by {
        if i < messages.len() {
            assert(after.frames[i] == ring.frames[i]);
            assert(longer[i] == messages[i]);
            assert(seq_back(after.next_seq, longer.len() - i) == seq_back(
                ring.next_seq,
                messages.len() - i,
            ));
        }
    }
    assert forall|i: int| 0 <= i < longer.len() implies #[trigger] longer[i].len()
        <= after.config.slot_size by {
        if i < messages.len() {
            assert(longer[i] == messages[i]);
        }
    }
}

/// The oldest message comes out unchanged, and the others stay in order.
pub proof fn law_ring_recv_is_first_in_first_out(ring: RingView, messages: Seq<Seq<u8>>)
    requires
        ring.holds(messages),
        messages.len() > 0,
    ensures
        ring.received().1 == Ok::<Seq<u8>, DslineError>(messages[0]),
        ring.received().0.holds(messages.skip(1)),
{
    let seq = seq_back(ring.next_seq, messages.len() as int);
    let after = ring.received().0;
    let rest = messages.skip(1);
    assert(messages[0].len() <= ring.config.slot_size);
    assert(ring.frames[0] == frame_bytes(plain_frame(seq, messages[0])));
    assert(ring.received().1 == Ok::<Seq<u8>, DslineError>(messages[0])) by {
        lemma_plain_round_trip(seq, messages[0]);
    }
    assert forall|i: int| 0 <= i < rest.len() implies #[trigger] after.frames[i] == frame_bytes(
        plain_frame(seq_back(after.next_seq, rest.len() - i), rest[i]),
    ) by {
        assert(after.frames[i] == ring.frames[i + 1]);
    }
    assert forall|i: int| 0 <= i < rest.len() implies #[trigger] rest[i].len()
        <= after.config.slot_size by {
        assert(rest[i] == messages[i + 1]);
    }
}

/// A full ring refuses, discards the incoming message or discards the oldest, as configured.
pub proof fn law_ring_backpressure(ring: RingView, messages: Seq<Seq<u8>>, payload: Seq<u8>)
    requires
        ring.holds(messages),
        !ring.closed,
        payload.len() <= ring.config.slot_size,
        messages.len() == ring.config.capacity,
        ring.config.capacity > 0,
    ensures
        ring.config.backpressure is Raise || ring.config.backpressure is Block ==> ring.sent(
            payload,
        ) == (ring, Err::<(), DslineError>(DslineError::Channel(ChannelError::BufferFull))),
        ring.config.backpressure is DropNewest ==> ring.sent(payload) == (
            ring,
            Ok::<(), DslineError>(()),
        ),
        ring.config.backpressure is DropOldest ==> ring.sent(payload).1 == Ok::<
            (),
            DslineError,
        >(()) && ring.sent(payload).0.holds(messages.skip(1).push(payload)),
{
    if ring.config.backpressure is DropOldest {
        let shorter = RingView { frames: ring.frames.skip(1), ..ring };
        law_ring_recv_is_first_in_first_out(ring, messages);
        law_ring_send_appends(shorter, messages.skip(1), payload);
    }
}

/// A closed ring refuses every message and hands out what it still holds, then reports that it
/// is closed.
pub proof fn law_ring_close_drains(ring: RingView, messages: Seq<Seq<u8>>, payload: Seq<u8>)
    requires
        ring.holds(messages),
        ring.closed,
    ensures
        ring.sent(payload) == (
            ring,
            Err::<(), DslineError>(DslineError::Channel(ChannelError::Closed)),
        ),
        messages.len() > 0 ==> ring.received().1 == Ok::<Seq<u8>, DslineError>(messages[0]),
        messages.len() > 0 ==> ring.received().0.holds(messages.skip(1)),
        messages.len() == 0 ==> ring.received() == (
            ring,
            Err::<Seq<u8>, DslineError>(DslineError::Channel(ChannelError::Closed)),
        ),
        ring.received().0.closed,
{
    if messages.len() > 0 {
        law_ring_recv_is_first_in_first_out(ring, messages);
    }
}

/// A configuration is refused exactly where there is no slot or a slot has no room, for the first
/// of these reasons.
pub proof fn law_configuration_needs_slots_with_room(config: SpscConfig)
    ensures
        config.problem() is None <==> config.capacity > 0 && config.slot_size > 0,
        config.capacity == 0 ==> config.problem() == Some(
            ChannelError::InvalidConfig("capacity must be greater than zero"),
        ),
        config.capacity > 0 && config.slot_size == 0 ==> config.problem() == Some(
            ChannelError::InvalidConfig("slot_size must be greater than zero"),
        ),
{
}

} // verus!
