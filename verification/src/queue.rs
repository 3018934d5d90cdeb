//! What a channel is and what its operations do: a queue of messages laid out over the slots of
//! a region.

use crate::chunk::{
    chunk_problem, frame_is_chunk, labelled, message_frames, planned, seq_precedes, ChunkInfo,
};
use crate::error::{ChannelError, DslineError};
use crate::frame::{frame_bytes, parsed_frame, FrameView, FRAME_HEADER_LEN};
use crate::slot::{not_in_state, overwritten, SlotState, SlotView};
use crate::spsc::{is_intact, seq_after, Backpressure, SendEvent, SendStep, SpscConfig};
use vstd::prelude::*;

verus! {

/// A message of which some chunks are still to be received.
#[verifier::ext_equal]
pub struct PartialView {
    pub seq: u64,
    /// The labels of the first chunk.
    pub info: ChunkInfo,
    /// The index of the chunk that is due.
    pub next: int,
    /// What the chunks so far carried.
    pub payload: Seq<u8>,
}

/// What receiving gives.
pub enum Outcome {
    Message { seq: u64, payload: Seq<u8> },
    /// The slot at the tail is still being written.
    Waiting,
    Failed(DslineError),
}

/// What receiving one chunk gives.
pub enum Piece {
    /// What the chunk carries.
    Part(Seq<u8>),
    /// The slot at the tail is still being written.
    Waiting,
    Failed(DslineError),
}

/// The state of a channel.
///
/// The slots from `tail` on, `len` of them, are in use; `head` is where the next frame goes.
#[verifier::ext_equal]
pub struct QueueView {
    pub config: SpscConfig,
    pub slots: Seq<SlotView>,
    /// One more than the largest length that can be noted for a slot.
    pub len_range: nat,
    /// Whether a slot that is not committed is waited for.
    pub waits: bool,
    pub head: int,
    pub tail: int,
    pub len: int,
    pub next_seq: u64,
    pub expected_seq: u64,
    pub last_seq: Option<u64>,
    pub closed: bool,
    pub partial: Option<PartialView>,
}

impl QueueView {
    /// The slot after another; after the last comes the first.
    pub open spec fn after(self, index: int) -> int {
        if index + 1 >= self.config.capacity {
            0
        } else {
            index + 1
        }
    }

    /// The slot at the tail.
    pub open spec fn oldest(self) -> SlotView {
        self.slots[self.tail]
    }

    /// The queue with the slot at the tail pinned.
    pub open spec fn pinned(self) -> QueueView {
        QueueView {
            slots: self.slots.update(self.tail, self.oldest().in_state(SlotState::Pinned)),
            ..self
        }
    }

    /// The queue with the slot at the tail released.
    pub open spec fn advanced(self) -> QueueView {
        QueueView {
            slots: self.slots.update(self.tail, self.oldest().released()),
            tail: self.after(self.tail),
            len: if self.len > 0 {
                self.len - 1
            } else {
                0
            },
            ..self
        }
    }

    /// The queue when the message that was due is done with.
    pub open spec fn counted(self) -> QueueView {
        QueueView { expected_seq: seq_after(self.expected_seq), ..self }
    }

    /// The queue without a message in progress.
    pub open spec fn settled(self) -> QueueView {
        QueueView { partial: None, ..self }
    }

    /// The queue after a whole message was handed out.
    pub open spec fn delivered(self, seq: u64) -> QueueView {
        QueueView { last_seq: Some(seq), ..self.counted() }
    }

    /// Why the frame at the tail cannot be read, if it cannot.
    pub open spec fn obstacle(self) -> Option<Outcome> {
        if self.waits && self.oldest().state != SlotState::Committed {
            if self.closed {
                Some(Outcome::Failed(DslineError::Channel(ChannelError::Closed)))
            } else {
                Some(Outcome::Waiting)
            }
        } else {
            match self.oldest().committed_frame() {
                Ok(_) => None,
                Err(e) => Some(Outcome::Failed(e)),
            }
        }
    }

    /// The frame at the tail, or why it cannot be decoded.
    pub open spec fn oldest_frame(self) -> Result<FrameView, DslineError> {
        match self.oldest().committed_frame() {
            Err(e) => Err(e),
            Ok(bytes) => match parsed_frame(bytes) {
                Err(e) => Err(DslineError::Protocol(e)),
                Ok(frame) => Ok(frame),
            },
        }
    }

    /// The bytes of the frame at the tail, where they are a whole header at least.
    pub open spec fn whole_frame(self) -> Result<Seq<u8>, DslineError> {
        match self.oldest().committed_frame() {
            Err(e) => Err(e),
            Ok(bytes) => if bytes.len() >= FRAME_HEADER_LEN {
                Ok(bytes)
            } else {
                Err(DslineError::Channel(ChannelError::CorruptedMessage))
            },
        }
    }

    /// The queue with other bytes at the start of the slot at the tail.
    pub open spec fn rewritten(self, bytes: Seq<u8>) -> QueueView {
        let slot = self.oldest();
        QueueView {
            slots: self.slots.update(
                self.tail,
                SlotView { body: overwritten(slot.body, bytes), ..slot },
            ),
            ..self
        }
    }

    /// Receives one chunk of a message. A slot that holds something else stays pinned.
    pub open spec fn took_chunk(self, seq: u64, due: ChunkInfo) -> (QueueView, Piece) {
        match self.obstacle() {
            Some(Outcome::Failed(e)) => (self, Piece::Failed(e)),
            Some(_) => (self, Piece::Waiting),
            None => if self.oldest().seq != seq {
                (
                    self.pinned(),
                    Piece::Failed(
                        DslineError::Channel(
                            ChannelError::SequenceMismatch {
                                expected: seq,
                                actual: self.oldest().seq,
                            },
                        ),
                    ),
                )
            } else {
                match self.oldest_frame() {
                    Err(e) => (self.pinned(), Piece::Failed(e)),
                    Ok(frame) => match chunk_problem(frame, seq, due) {
                        Some(e) => (self.pinned(), Piece::Failed(DslineError::Channel(e))),
                        None => (self.pinned().advanced(), Piece::Part(frame.payload)),
                    },
                }
            },
        }
    }

    /// Receives the chunks of a message from `next` on.
    pub open spec fn gathered(self, seq: u64, info: ChunkInfo, next: int, payload: Seq<u8>) -> (
        QueueView,
        Outcome,
    )
        decreases info.total - next,
    {
        if next >= info.total {
            if payload.len() != info.message_len {
                (self, Outcome::Failed(DslineError::Channel(ChannelError::CorruptedMessage)))
            } else {
                (self.delivered(seq), Outcome::Message { seq, payload })
            }
        } else {
            match self.took_chunk(seq, ChunkInfo { index: next as usize, ..info }) {
                (after, Piece::Part(part)) => after.gathered(seq, info, next + 1, payload + part),
                (after, Piece::Waiting) => (
                    QueueView { partial: Some(PartialView { seq, info, next, payload }), ..after },
                    Outcome::Waiting,
                ),
                (after, Piece::Failed(e)) => (after, Outcome::Failed(e)),
            }
        }
    }

    /// Receives the message whose first frame, at the tail, has been read and pinned.
    pub open spec fn opened(self, frame: FrameView) -> (QueueView, Outcome) {
        let seq = self.oldest().seq;
        let lost = self.advanced().counted();
        if !is_intact(frame) {
            (lost, Outcome::Failed(DslineError::Channel(ChannelError::CorruptedMessage)))
        } else if frame.header.seq != seq {
            (
                lost,
                Outcome::Failed(
                    DslineError::Channel(
                        ChannelError::SequenceMismatch { expected: seq, actual: frame.header.seq },
                    ),
                ),
            )
        } else if !frame_is_chunk(frame) {
            (
                self.advanced().delivered(seq),
                Outcome::Message { seq, payload: frame.payload },
            )
        } else {
            match labelled(frame.metadata) {
                Err(e) => (self, Outcome::Failed(DslineError::Channel(e))),
                Ok(info) => if info.index != 0 {
                    (self, Outcome::Failed(DslineError::Channel(ChannelError::CorruptedMessage)))
                } else {
                    self.advanced().gathered(seq, info, 1, frame.payload)
                },
            }
        }
    }

    /// What receiving does: the queue afterwards, and what comes out.
    ///
    /// A frame that cannot be decoded, or does not belong to its slot, is released and its
    /// message is counted. A slot whose sequence number is not the one due stays pinned.
    pub open spec fn received(self) -> (QueueView, Outcome) {
        match self.partial {
            Some(p) => self.settled().gathered(p.seq, p.info, p.next, p.payload),
            None => if self.len == 0 {
                let error = if self.closed {
                    ChannelError::Closed
                } else {
                    ChannelError::BufferEmpty
                };
                (self, Outcome::Failed(DslineError::Channel(error)))
            } else {
                match self.obstacle() {
                    Some(outcome) => (self, outcome),
                    None => if self.oldest().seq != self.expected_seq {
                        (
                            self.pinned(),
                            Outcome::Failed(
                                DslineError::Channel(
                                    ChannelError::SequenceMismatch {
                                        expected: self.expected_seq,
                                        actual: self.oldest().seq,
                                    },
                                ),
                            ),
                        )
                    } else {
                        match self.oldest_frame() {
                            Err(e) => (
                                self.pinned().advanced().counted(),
                                Outcome::Failed(e),
                            ),
                            Ok(frame) => self.pinned().opened(frame),
                        }
                    },
                }
            },
        }
    }

    /// Releases committed slots at the tail, then counts the message they held.
    pub open spec fn discarded(self, count: nat) -> (QueueView, Result<(), DslineError>)
        decreases count,
    {
        if count == 0 {
            (self.counted(), Ok(()))
        } else if self.oldest().state != SlotState::Committed {
            (self, Err(not_in_state(SlotState::Committed)))
        } else {
            self.advanced().discarded((count - 1) as nat)
        }
    }

    /// How many slots the message at the tail takes, or why that cannot be told.
    pub open spec fn oldest_span(self) -> Result<usize, DslineError> {
        match self.oldest_frame() {
            Err(e) => Err(e),
            Ok(frame) => if !frame_is_chunk(frame) {
                Ok(1)
            } else {
                match labelled(frame.metadata) {
                    Err(e) => Err(DslineError::Channel(e)),
                    Ok(info) => if info.index != 0 {
                        Err(DslineError::Channel(ChannelError::CorruptedMessage))
                    } else {
                        Ok(info.total)
                    },
                }
            },
        }
    }

    /// Drops the message at the tail, if there is one.
    pub open spec fn dropped(self) -> (QueueView, Result<(), DslineError>) {
        if self.len == 0 {
            (self, Ok(()))
        } else {
            match self.oldest_span() {
                Err(e) => (self, Err(e)),
                Ok(count) => self.discarded(count as nat),
            }
        }
    }

    /// Whether the given number of slots is free.
    pub open spec fn has_room(self, needed: nat) -> bool {
        self.config.capacity - self.len >= needed
    }

    /// Drops messages at the tail until the given number of slots is free.
    pub open spec fn cleared(self, needed: nat) -> (QueueView, Result<(), DslineError>)
        decreases self.len,
    {
        if self.has_room(needed) {
            (self, Ok(()))
        } else {
            match self.dropped() {
                (next, Err(e)) => (next, Err(e)),
                (next, Ok(())) => if 0 <= next.len < self.len {
                    next.cleared(needed)
                } else {
                    (next, Ok(()))
                },
            }
        }
    }

    /// Makes room for a message as configured. `Ok(false)` means that it is to be discarded.
    pub open spec fn prepared(self, needed: nat) -> (QueueView, Result<bool, DslineError>) {
        if self.has_room(needed) {
            (self, Ok(true))
        } else {
            match self.config.backpressure {
                Backpressure::Raise | Backpressure::Block => (
                    self,
                    Err(DslineError::Channel(ChannelError::BufferFull)),
                ),
                Backpressure::DropNewest => (self, Ok(false)),
                Backpressure::DropOldest => match self.cleared(needed) {
                    (next, Ok(())) => (next, Ok(true)),
                    (next, Err(e)) => (next, Err(e)),
                },
            }
        }
    }

    /// The queue with one more frame at its head.
    pub open spec fn with_frame(self, seq: u64, frame: Seq<u8>) -> QueueView {
        let slot = self.slots[self.head].with_frame(
            SlotState::Committed,
            seq,
            frame,
            self.len_range,
        );
        QueueView {
            slots: self.slots.update(self.head, slot),
            head: self.after(self.head),
            len: self.len + 1,
            ..self
        }
    }

    /// Writes frames at the head, until a slot is not free.
    pub open spec fn stored(self, seq: u64, frames: Seq<FrameView>) -> (
        QueueView,
        Result<(), DslineError>,
    )
        decreases frames.len(),
    {
        if frames.len() == 0 {
            (self, Ok(()))
        } else if self.slots[self.head].state != SlotState::Free {
            (self, Err(DslineError::Channel(ChannelError::BufferFull)))
        } else {
            self.with_frame(seq, frame_bytes(frames[0])).stored(seq, frames.skip(1))
        }
    }

    /// The queue when a message has been given its sequence number.
    pub open spec fn numbered(self) -> QueueView {
        QueueView { next_seq: seq_after(self.next_seq), ..self }
    }

    /// What sending does: the queue afterwards, and the error if there is one.
    pub open spec fn sent(self, payload: Seq<u8>) -> (QueueView, Result<(), DslineError>) {
        if self.closed {
            (self, Err(DslineError::Channel(ChannelError::Closed)))
        } else {
            match planned(self.config, payload.len()) {
                Err(e) => (self, Err(DslineError::Channel(e))),
                Ok(plan) => match self.prepared(plan.needed_slots as nat) {
                    (ready, Err(e)) => (ready, Err(e)),
                    (ready, Ok(false)) => (ready, Ok(())),
                    (ready, Ok(true)) => ready.numbered().stored(
                        ready.next_seq,
                        message_frames(ready.config, ready.next_seq, payload),
                    ),
                },
            }
        }
    }

    /// Whether what becomes of a message is decided before any slot is touched: the channel is
    /// closed, the message cannot fit in it, or there is no room now and none is made.
    pub open spec fn is_decided(self, payload: Seq<u8>) -> bool {
        ||| self.closed
        ||| match planned(self.config, payload.len()) {
            Err(_) => true,
            Ok(plan) => !self.has_room(plan.needed_slots as nat) && !(
            self.config.backpressure is DropOldest),
        }
    }

    /// Whether a message has to wait for room: it fits in the channel, not now, and the sender may
    /// wait.
    pub open spec fn has_to_wait(self, payload: Seq<u8>) -> bool {
        &&& !self.closed
        &&& self.config.may_wait()
        &&& planned(self.config, payload.len()) matches Ok(plan) && !self.has_room(
            plan.needed_slots as nat,
        )
    }

    /// What one step of sending with waiting does: a message that has to wait waits while there is
    /// time, and is refused when the time is up; any other is sent.
    pub open spec fn send_stepped(self, payload: Seq<u8>, event: SendEvent) -> (
        QueueView,
        SendStep,
    ) {
        if event == SendEvent::TimedOut {
            (self, SendStep::Done(Err(DslineError::Channel(ChannelError::BufferFull))))
        } else if self.has_to_wait(payload) {
            (self, SendStep::Wait)
        } else {
            (self.sent(payload).0, SendStep::Done(self.sent(payload).1))
        }
    }

    /// The slot before another; before the first comes the last.
    pub open spec fn before(self, index: int) -> int {
        if index == 0 {
            self.config.capacity - 1
        } else {
            index - 1
        }
    }

    /// Whether a slot is in use.
    pub open spec fn in_use(self, index: int) -> bool {
        is_occupied(self.slots[index].state)
    }

    /// How many of the first slots are in use.
    pub open spec fn used_below(self, count: nat) -> nat
        decreases count,
    {
        if count == 0 {
            0
        } else {
            let below = self.used_below((count - 1) as nat);
            if self.in_use(count - 1) {
                below + 1
            } else {
                below
            }
        }
    }

    /// The first slot from `index` on that is in use while the slot before it is not.
    pub open spec fn run_start(self, index: int) -> Option<int>
        decreases self.config.capacity - index,
    {
        if index >= self.config.capacity {
            None
        } else if self.in_use(index) && !self.in_use(self.before(index)) {
            Some(index)
        } else {
            self.run_start(index + 1)
        }
    }

    /// The oldest of the first slots that are in use, if there is one.
    pub open spec fn oldest_below(self, count: nat) -> Option<int>
        decreases count,
    {
        if count == 0 {
            None
        } else {
            let index = count - 1;
            match self.oldest_below(index as nat) {
                None => if self.in_use(index) {
                    Some(index)
                } else {
                    None
                },
                Some(other) => if self.in_use(index) && slot_precedes(
                    self.slots[index],
                    self.slots[other],
                ) {
                    Some(index)
                } else {
                    Some(other)
                },
            }
        }
    }

    /// Where the oldest frame is: at the start of the run of slots in use. Where all slots are in
    /// use there is no start to see: then it is where it was known to be, and otherwise the
    /// sequence numbers and chunk labels tell.
    pub open spec fn found_tail(self) -> int {
        match self.run_start(0) {
            Some(index) => index,
            None => if self.len > 0 && self.in_use(self.tail) {
                self.tail
            } else {
                match self.oldest_below(self.config.capacity as nat) {
                    None => self.tail,
                    Some(index) => index,
                }
            },
        }
    }

    /// The first free slot among `count` slots from `index` on, or else the slot after them.
    pub open spec fn free_from(self, index: int, count: nat) -> int
        decreases count,
    {
        if count == 0 || self.slots[index].state == SlotState::Free {
            index
        } else {
            self.free_from(self.after(index), (count - 1) as nat)
        }
    }

    /// The sequence number after all those in the first slots and the one known so far.
    pub open spec fn numbered_below(self, count: nat) -> u64
        decreases count,
    {
        if count == 0 {
            self.next_seq
        } else {
            let known = self.numbered_below((count - 1) as nat);
            let candidate = seq_after(self.slots[count - 1].seq);
            if self.in_use(count - 1) && seq_precedes(known, candidate) {
                candidate
            } else {
                known
            }
        }
    }

    /// What looking at the slots afresh does: the positions are found again.
    pub open spec fn refreshed(self) -> QueueView {
        let capacity = self.config.capacity as nat;
        let used = self.used_below(capacity);
        let tail = self.found_tail();
        if used == 0 {
            QueueView { head: 0, tail: 0, len: 0, expected_seq: self.next_seq, ..self }
        } else {
            QueueView {
                head: self.free_from(tail, capacity),
                tail,
                len: used as int,
                next_seq: self.numbered_below(capacity),
                expected_seq: self.slots[tail].seq,
                ..self
            }
        }
    }

    /// Sending over slots that others write to as well: the slots are looked at first.
    pub open spec fn shared_sent(self, payload: Seq<u8>) -> (QueueView, Result<(), DslineError>) {
        if self.closed {
            (self, Err(DslineError::Channel(ChannelError::Closed)))
        } else {
            self.refreshed().sent(payload)
        }
    }

    /// One step of sending with waiting, over slots that others write to as well: the slots are
    /// looked at first, unless the time is up.
    pub open spec fn shared_send_stepped(self, payload: Seq<u8>, event: SendEvent) -> (
        QueueView,
        SendStep,
    ) {
        if event == SendEvent::TimedOut || self.closed {
            self.send_stepped(payload, event)
        } else {
            self.refreshed().send_stepped(payload, event)
        }
    }

    /// Receiving over slots that others write to as well: the slots are looked at first, unless a
    /// message is in progress.
    pub open spec fn shared_received(self) -> (QueueView, Outcome) {
        if self.partial is Some {
            self.received()
        } else {
            self.refreshed().received()
        }
    }
}

/// Whether a slot in this state is in use: being written, written or being read.
pub open spec fn is_occupied(state: SlotState) -> bool {
    state == SlotState::Committed || state == SlotState::Pinned || state == SlotState::Writing
}

/// The chunk index of what a slot holds. Where no chunk can be read there, that is zero.
pub open spec fn chunk_index_of(slot: SlotView) -> usize {
    match slot.committed_frame() {
        Err(_) => 0,
        Ok(bytes) => match parsed_frame(bytes) {
            Err(_) => 0,
            Ok(frame) => match labelled(frame.metadata) {
                Ok(info) if frame_is_chunk(frame) => info.index,
                _ => 0,
            },
        },
    }
}

/// Whether a slot was written before another: its sequence number comes before, or its chunk
/// index where the numbers are the same.
pub open spec fn slot_precedes(left: SlotView, right: SlotView) -> bool {
    if left.seq != right.seq {
        seq_precedes(left.seq, right.seq)
    } else {
        chunk_index_of(left) < chunk_index_of(right)
    }
}

} // verus!
