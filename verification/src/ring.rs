//! The queue of a channel over a region of slots.

use crate::chunk::{
    chunk_info, encode_message_frames, is_chunked, lemma_plan_fits, message_frames,
    send_plan, sequence_precedes, validate_bytes_frame, validate_chunk, ChunkInfo,
};
use crate::error::{ChannelError, DslineError};
use crate::frame::{
    decode_frame, frame_bytes, misdeclare_checksum, misdeclared, renumber, renumbered, Frame,
    FrameView, FRAME_HEADER_LEN,
};
use crate::queue::{
    chunk_index_of, is_occupied, slot_precedes, Outcome, PartialView, Piece, QueueView,
};
use crate::slot::{not_in_state, shows, RegionShape, SlotRegion, SlotSnapshot, SlotState};
use crate::spsc::{seq_after, told_step, Backpressure, SendEvent, SendStep, SpscConfig};
use crate::storage::told;
use vstd::prelude::*;

verus! {

/// A message and its sequence number.
#[derive(Debug, Clone, PartialEq, Eq)]
pub struct ReceivedMessage {
    pub seq: u64,
    pub payload: Vec<u8>,
}

/// A message of which some chunks are still to be received.
#[derive(Debug)]
struct Partial {
    seq: u64,
    info: ChunkInfo,
    next: usize,
    payload: Vec<u8>,
}

/// A queue of messages over the slots of a region.
#[derive(Debug)]
pub struct Ring<R: SlotRegion> {
    config: SpscConfig,
    region: R,
    waits: bool,
    head: usize,
    tail: usize,
    len: usize,
    next_seq: u64,
    expected_recv_seq: u64,
    last_received_seq: Option<u64>,
    closed: bool,
    partial: Option<Partial>,
}

/// Whether what was returned is the outcome given. Nothing is returned while there is something
/// to wait for.
pub open spec fn is_outcome(
    r: Result<Option<ReceivedMessage>, DslineError>,
    outcome: Outcome,
) -> bool {
    match outcome {
        Outcome::Message { seq, payload } => r matches Ok(Some(message)) && message.seq == seq
            && message.payload@ == payload,
        Outcome::Waiting => r == Ok::<Option<ReceivedMessage>, DslineError>(None),
        Outcome::Failed(e) => r == Err::<Option<ReceivedMessage>, DslineError>(e),
    }
}

impl<R: SlotRegion> View for Ring<R> {
    type V = QueueView;

    closed spec fn view(&self) -> QueueView {
        QueueView {
            config: self.config,
            slots: self.region.slots(),
            len_range: self.region.shape().len_range,
            waits: self.waits,
            head: self.head as int,
            tail: self.tail as int,
            len: self.len as int,
            next_seq: self.next_seq,
            expected_seq: self.expected_recv_seq,
            last_seq: self.last_received_seq,
            closed: self.closed,
            partial: match self.partial {
                None => None,
                Some(p) => Some(
                    PartialView {
                        seq: p.seq,
                        info: p.info,
                        next: p.next as int,
                        payload: p.payload@,
                    },
                ),
            },
        }
    }
}

impl<R: SlotRegion> Ring<R> {
    /// The shape of the region.
    pub closed spec fn shape(&self) -> RegionShape {
        self.region.shape()
    }

    /// The error that a request to write failed with last, as far as is told.
    pub closed spec fn fault(&self) -> Option<DslineError> {
        self.region.fault()
    }

    /// The region.
    pub closed spec fn backing(&self) -> R {
        self.region
    }

    /// The configuration is valid, the region has the slots it asks for with room for any frame,
    /// and the positions lie inside.
    pub closed spec fn wf(&self) -> bool {
        &&& self.config.problem() is None
        &&& self.region.valid()
        &&& self.region.shape().capacity == self.config.capacity
        &&& self.region.shape().frame_room >= self.config.slot_size + FRAME_HEADER_LEN
        &&& self.head < self.config.capacity
        &&& self.tail < self.config.capacity
        &&& self.len <= self.config.capacity
        &&& !self.waits ==> self.partial is None
    }

    /// What no operation changes.
    pub open spec fn same_settings(before: &Self, after: &Self) -> bool {
        &&& after.shape() == before.shape()
        &&& after@.config == before@.config
        &&& after@.waits == before@.waits
        &&& after@.len_range == before@.len_range
        &&& after@.closed == before@.closed
    }

    /// Whether the sequence numbers are the same in two states.
    pub open spec fn same_numbers(before: &Self, after: &Self) -> bool {
        &&& after@.next_seq == before@.next_seq
        &&& after@.expected_seq == before@.expected_seq
        &&& after@.last_seq == before@.last_seq
    }

    /// How receiving moves the sequence numbers, whatever the storage does: a message handed out
    /// is the last one received and the next one is due.
    pub open spec fn numbers_received(
        before: &Self,
        after: &Self,
        seq: u64,
        r: Result<Option<ReceivedMessage>, DslineError>,
    ) -> bool {
        &&& after@.next_seq == before@.next_seq
        &&& match r {
            Ok(Some(message)) => message.seq == seq && after@.last_seq == Some(seq)
                && after@.expected_seq == seq_after(before@.expected_seq),
            Ok(None) => Self::same_numbers(before, after),
            Err(_) => after@.last_seq == before@.last_seq,
        }
    }

    /// What being well formed says of the state.
    pub proof fn lemma_wf(&self)
        requires
            self.wf(),
        ensures
            self@.config.problem() is None,
            0 <= self@.head < self@.config.capacity,
            0 <= self@.tail < self@.config.capacity,
            0 <= self@.len <= self@.config.capacity,
            !self@.waits ==> self@.partial is None,
            self.shape().capacity == self@.config.capacity,
            self.shape().frame_room >= self@.config.slot_size + FRAME_HEADER_LEN,
            self.shape().len_range == self@.len_range,
            self.backing().valid(),
            self.shape() == self.backing().shape(),
            self@.slots == self.backing().slots(),
            self.fault() == self.backing().fault(),
    {
    }

    /// The slot after another.
    fn after(&self, index: usize) -> (next: usize)
        requires
            self.wf(),
            index < self@.config.capacity,
        ensures
            next == self@.after(index as int),
            next < self@.config.capacity,
    {
        if index + 1 >= self.config.capacity {
            0
        } else {
            index + 1
        }
    }

    /// Frees the slot at the tail, which is in the given state, and moves the tail on.
    fn advance(&mut self, state: SlotState) -> (r: Result<(), DslineError>)
        requires
            old(self).wf(),
            state == SlotState::Pinned || state == SlotState::Committed,
        ensures
            final(self).wf(),
            Self::same_settings(old(self), final(self)),
            told(old(self).fault(), final(self).fault(), r),
            Self::same_numbers(old(self), final(self)),
            final(self)@.partial == old(self)@.partial,
            final(self)@.len <= old(self)@.len,
            r is Ok && old(self)@.len > 0 ==> final(self)@.len < old(self)@.len,
            old(self).shape().stable ==> if old(self)@.oldest().state == state {
                r is Ok && final(self)@ == old(self)@.advanced()
            } else {
                r == Err::<(), DslineError>(not_in_state(state)) && final(self)@ == old(self)@
            },
    {
        match self.region.release(self.tail, state) {
            Err(e) => {
                return Err(e);
            },
            Ok(()) => {},
        }
        self.tail = self.after(self.tail);
        if self.len > 0 {
            self.len = self.len - 1;
        }
        Ok(())
    }

    /// Counts the message that was due.
    fn count(&mut self)
        requires
            old(self).wf(),
        ensures
            final(self).wf(),
            Self::same_settings(old(self), final(self)),
            final(self).fault() == old(self).fault(),
            final(self)@ == old(self)@.counted(),
    {
        self.expected_recv_seq = self.expected_recv_seq.wrapping_add(1);
    }

    /// Reads and pins the slot at the tail. Nothing comes out where it is waited for.
    fn read_tail(&mut self) -> (r: Result<Option<SlotSnapshot>, DslineError>)
        requires
            old(self).wf(),
        ensures
            final(self).wf(),
            Self::same_settings(old(self), final(self)),
            told(old(self).fault(), final(self).fault(), r),
            old(self)@.waits ==> (old(self).backing().hidden(
                old(self)@.tail as usize,
            ) matches Some(e) ==> r == Err::<Option<SlotSnapshot>, DslineError>(e)),
            !old(self)@.waits ==> (old(self).backing().unreadable(
                old(self)@.tail as usize,
            ) matches Some(e) ==> r == Err::<Option<SlotSnapshot>, DslineError>(e)),
            Self::same_numbers(old(self), final(self)),
            final(self)@.partial == old(self)@.partial,
            r matches Ok(None) ==> old(self)@.waits,
            old(self).shape().stable ==> match old(self)@.obstacle() {
                Some(Outcome::Failed(e)) => {
                    &&& r == Err::<Option<SlotSnapshot>, DslineError>(e)
                    &&& final(self)@ == old(self)@
                },
                Some(_) => {
                    &&& r == Ok::<Option<SlotSnapshot>, DslineError>(None)
                    &&& final(self)@ == old(self)@
                },
                None => {
                    &&& r matches Ok(Some(snapshot))
                    &&& shows(snapshot, old(self)@.oldest(), SlotState::Pinned)
                    &&& final(self)@ == old(self)@.pinned()
                },
            },
    {
        if self.waits {
            match self.region.slot_header(self.tail) {
                Err(e) => {
                    return Err(e);
                },
                Ok((state, _)) => {
                    if state != SlotState::Committed {
                        if self.closed {
                            return Err(DslineError::Channel(ChannelError::Closed));
                        }
                        return Ok(None);
                    }
                },
            }
        }
        match self.region.pin(self.tail) {
            Ok(snapshot) => Ok(Some(snapshot)),
            Err(e) => Err(e),
        }
    }

    /// Receives one chunk of a message. Nothing comes out where it is waited for.
    fn recv_chunk(&mut self, seq: u64, due: ChunkInfo) -> (r: Result<Option<Vec<u8>>, DslineError>)
        requires
            old(self).wf(),
        ensures
            final(self).wf(),
            Self::same_settings(old(self), final(self)),
            told(old(self).fault(), final(self).fault(), r),
            old(self)@.waits ==> (old(self).backing().hidden(
                old(self)@.tail as usize,
            ) matches Some(e) ==> r == Err::<Option<Vec<u8>>, DslineError>(e)),
            !old(self)@.waits ==> (old(self).backing().unreadable(
                old(self)@.tail as usize,
            ) matches Some(e) ==> r == Err::<Option<Vec<u8>>, DslineError>(e)),
            Self::same_numbers(old(self), final(self)),
            final(self)@.partial == old(self)@.partial,
            r matches Ok(None) ==> old(self)@.waits,
            old(self).shape().stable ==> {
                let (after, piece) = old(self)@.took_chunk(seq, due);
                &&& final(self)@ == after
                &&& match piece {
                    Piece::Part(part) => r matches Ok(Some(bytes)) && bytes@ == part,
                    Piece::Waiting => r == Ok::<Option<Vec<u8>>, DslineError>(None),
                    Piece::Failed(e) => r == Err::<Option<Vec<u8>>, DslineError>(e),
                }
            },
    {
        proof {
            if self.shape().stable {
                self.region.lemma_shape();
            }
        }
        let snapshot = match self.read_tail() {
            Ok(Some(snapshot)) => snapshot,
            Ok(None) => {
                return Ok(None);
            },
            Err(e) => {
                return Err(e);
            },
        };
        if snapshot.seq != seq {
            return Err(
                DslineError::Channel(
                    ChannelError::SequenceMismatch { expected: seq, actual: snapshot.seq },
                ),
            );
        }
        let frame = match decode_frame(snapshot.data.as_slice()) {
            Ok(frame) => frame,
            Err(e) => {
                return Err(e);
            },
        };
        match validate_chunk(&frame, seq, due) {
            Ok(()) => {},
            Err(e) => {
                return Err(e);
            },
        }
        match self.advance(SlotState::Pinned) {
            Ok(()) => Ok(Some(frame.payload)),
            Err(e) => Err(e),
        }
    }

    /// Receives the chunks of a message from `next` on.
    fn recv_chunked_message(
        &mut self,
        seq: u64,
        info: ChunkInfo,
        next: usize,
        payload: Vec<u8>,
    ) -> (r: Result<Option<ReceivedMessage>, DslineError>)
        requires
            old(self).wf(),
            old(self)@.partial is None,
        ensures
            final(self).wf(),
            Self::same_settings(old(self), final(self)),
            told(old(self).fault(), final(self).fault(), r),
            next < info.total && old(self)@.waits ==> (old(self).backing().hidden(
                old(self)@.tail as usize,
            ) matches Some(e) ==> r == Err::<Option<ReceivedMessage>, DslineError>(e)),
            next < info.total && !old(self)@.waits ==> (old(self).backing().unreadable(
                old(self)@.tail as usize,
            ) matches Some(e) ==> r == Err::<Option<ReceivedMessage>, DslineError>(e)),
            Self::numbers_received(old(self), final(self), seq, r),
            r matches Ok(None) ==> old(self)@.waits,
            old(self).shape().stable ==> {
                let (after, outcome) = old(self)@.gathered(seq, info, next as int, payload@);
                final(self)@ == after && is_outcome(r, outcome)
            },
    {
        let mut index: usize = next;
        let mut bytes = payload;
        let ghost all = self@.gathered(seq, info, next as int, payload@);
        while index < info.total
            invariant
                self.wf(),
                Self::same_settings(old(self), self),
                self.fault() == old(self).fault(),
                Self::same_numbers(old(self), self),
                self@.partial is None,
                next <= index,
                index == next ==> self.region == old(self).region && self.tail == old(self).tail,
                next < info.total ==> (old(self)@.waits ==> (old(self).backing().hidden(
                    old(self)@.tail as usize,
                ) is Some ==> index == next)) && (!old(self)@.waits ==> (old(
                    self,
                ).backing().unreadable(old(self)@.tail as usize) is Some ==> index == next)),
                all == old(self)@.gathered(seq, info, next as int, payload@),
                self.shape().stable ==> all == self@.gathered(seq, info, index as int, bytes@),
            decreases info.total - index,
        {
            let due = ChunkInfo { index, total: info.total, message_len: info.message_len };
            match self.recv_chunk(seq, due) {
                Ok(Some(part)) => {
                    let ghost before = bytes@;
                    bytes.extend_from_slice(part.as_slice());
                    proof {
                        assert(bytes@ =~= before + part@);
                    }
                },
                Ok(None) => {
                    self.partial = Some(Partial { seq, info, next: index, payload: bytes });
                    return Ok(None);
                },
                Err(e) => {
                    return Err(e);
                },
            }
            index += 1;
        }
        if bytes.len() != info.message_len {
            return Err(DslineError::Channel(ChannelError::CorruptedMessage));
        }
        self.count();
        self.last_received_seq = Some(seq);
        Ok(Some(ReceivedMessage { seq, payload: bytes }))
    }

    /// Gives up the message at the tail, whose slot is pinned: releases the slot and counts it.
    fn lose(&mut self, error: DslineError) -> (r: Result<Option<ReceivedMessage>, DslineError>)
        requires
            old(self).wf(),
        ensures
            final(self).wf(),
            Self::same_settings(old(self), final(self)),
            told(old(self).fault(), final(self).fault(), r),
            final(self)@.next_seq == old(self)@.next_seq,
            final(self)@.last_seq == old(self)@.last_seq,
            r is Err,
            old(self).shape().stable && old(self)@.oldest().state == SlotState::Pinned ==> {
                &&& r == Err::<Option<ReceivedMessage>, DslineError>(error)
                &&& final(self)@ == old(self)@.advanced().counted()
            },
    {
        match self.advance(SlotState::Pinned) {
            Err(e) => Err(e),
            Ok(()) => {
                self.count();
                Err(error)
            },
        }
    }

    /// Receives the message whose first frame, at the tail, has been read and pinned.
    fn open_message(&mut self, slot_seq: u64, frame: Frame) -> (r: Result<
        Option<ReceivedMessage>,
        DslineError,
    >)
        requires
            old(self).wf(),
            old(self)@.partial is None,
        ensures
            final(self).wf(),
            Self::same_settings(old(self), final(self)),
            told(old(self).fault(), final(self).fault(), r),
            Self::numbers_received(old(self), final(self), slot_seq, r),
            r matches Ok(None) ==> old(self)@.waits,
            old(self).shape().stable && old(self)@.oldest().state == SlotState::Pinned && old(
                self,
            )@.oldest().seq == slot_seq ==> {
                let (after, outcome) = old(self)@.opened(frame@);
                final(self)@ == after && is_outcome(r, outcome)
            },
    {
        match validate_bytes_frame(&frame) {
            Ok(()) => {},
            Err(e) => {
                return self.lose(e);
            },
        }
        let seq: u64 = frame.header.seq;
        if seq != slot_seq {
            return self.lose(
                DslineError::Channel(
                    ChannelError::SequenceMismatch { expected: slot_seq, actual: seq },
                ),
            );
        }
        if !is_chunked(&frame) {
            match self.advance(SlotState::Pinned) {
                Err(e) => {
                    return Err(e);
                },
                Ok(()) => {},
            }
            self.count();
            self.last_received_seq = Some(seq);
            return Ok(Some(ReceivedMessage { seq, payload: frame.payload }));
        }
        let info = match chunk_info(&frame) {
            Ok(info) => info,
            Err(e) => {
                return Err(e);
            },
        };
        if info.index != 0 {
            return Err(DslineError::Channel(ChannelError::CorruptedMessage));
        }
        match self.advance(SlotState::Pinned) {
            Err(e) => Err(e),
            Ok(()) => self.recv_chunked_message(seq, info, 1, frame.payload),
        }
    }

    /// Receives a message. Nothing comes out while the slot at the tail is waited for.
    pub fn receive(&mut self) -> (r: Result<Option<ReceivedMessage>, DslineError>)
        requires
            old(self).wf(),
        ensures
            final(self).wf(),
            Self::same_settings(old(self), final(self)),
            told(old(self).fault(), final(self).fault(), r),
            old(self)@.partial is None && old(self)@.len > 0 && old(self)@.waits ==> (old(
                self,
            ).backing().hidden(old(self)@.tail as usize) matches Some(e) ==> r == Err::<
                Option<ReceivedMessage>,
                DslineError,
            >(e)),
            old(self)@.partial is None && old(self)@.len > 0 && !old(self)@.waits ==> (old(
                self,
            ).backing().unreadable(old(self)@.tail as usize) matches Some(e) ==> r == Err::<
                Option<ReceivedMessage>,
                DslineError,
            >(e)),
            old(self)@.partial is None ==> Self::numbers_received(
                old(self),
                final(self),
                old(self)@.expected_seq,
                r,
            ),
            old(self)@.partial matches Some(p) ==> Self::numbers_received(
                old(self),
                final(self),
                p.seq,
                r,
            ),
            r matches Ok(None) ==> old(self)@.waits,
            old(self)@.partial is None && old(self)@.len == 0 ==> *final(self) == *old(self)
                && is_outcome(r, old(self)@.received().1),
            old(self).shape().stable ==> {
                let (after, outcome) = old(self)@.received();
                final(self)@ == after && is_outcome(r, outcome)
            },
    {
        proof {
            if self.shape().stable {
                self.region.lemma_shape();
            }
        }
        let partial = self.partial.take();
        match partial {
            Some(p) => {
                return self.recv_chunked_message(p.seq, p.info, p.next, p.payload);
            },
            None => {},
        }
        if self.len == 0 {
            let error = if self.closed {
                ChannelError::Closed
            } else {
                ChannelError::BufferEmpty
            };
            return Err(DslineError::Channel(error));
        }
        let snapshot = match self.read_tail() {
            Ok(Some(snapshot)) => snapshot,
            Ok(None) => {
                return Ok(None);
            },
            Err(e) => {
                return Err(e);
            },
        };
        if snapshot.seq != self.expected_recv_seq {
            return Err(
                DslineError::Channel(
                    ChannelError::SequenceMismatch {
                        expected: self.expected_recv_seq,
                        actual: snapshot.seq,
                    },
                ),
            );
        }
        match decode_frame(snapshot.data.as_slice()) {
            Ok(frame) => self.open_message(snapshot.seq, frame),
            Err(e) => self.lose(e),
        }
    }

    /// Releases committed slots at the tail, then counts the message they held.
    fn discard(&mut self, count: usize) -> (r: Result<(), DslineError>)
        requires
            old(self).wf(),
        ensures
            final(self).wf(),
            Self::same_settings(old(self), final(self)),
            told(old(self).fault(), final(self).fault(), r),
            final(self)@.next_seq == old(self)@.next_seq,
            final(self)@.last_seq == old(self)@.last_seq,
            final(self)@.len <= old(self)@.len,
            r is Ok && count > 0 && old(self)@.len > 0 ==> final(self)@.len < old(self)@.len,
            old(self).shape().stable ==> (final(self)@, r) == old(self)@.discarded(count as nat),
    {
        let ghost all = self@.discarded(count as nat);
        let mut left: usize = count;
        while left > 0
            invariant
                self.wf(),
                left <= count,
                Self::same_settings(old(self), self),
                self.fault() == old(self).fault(),
                Self::same_numbers(old(self), self),
                all == old(self)@.discarded(count as nat),
                self@.len <= old(self)@.len,
                left < count && old(self)@.len > 0 ==> self@.len < old(self)@.len,
                self.shape().stable ==> all == self@.discarded(left as nat),
            decreases left,
        {
            match self.advance(SlotState::Committed) {
                Ok(()) => {},
                Err(e) => {
                    return Err(e);
                },
            }
            left -= 1;
        }
        self.count();
        Ok(())
    }

    /// Drops the message at the tail, if there is one.
    fn drop_oldest_message(&mut self) -> (r: Result<(), DslineError>)
        requires
            old(self).wf(),
        ensures
            final(self).wf(),
            Self::same_settings(old(self), final(self)),
            told(old(self).fault(), final(self).fault(), r),
            old(self)@.len > 0 ==> (old(self).backing().unreadable(
                old(self)@.tail as usize,
            ) matches Some(e) ==> r == Err::<(), DslineError>(e)),
            final(self)@.next_seq == old(self)@.next_seq,
            final(self)@.last_seq == old(self)@.last_seq,
            r is Ok && old(self)@.len > 0 ==> final(self)@.len < old(self)@.len,
            old(self).shape().stable ==> (final(self)@, r) == old(self)@.dropped(),
    {
        if self.len == 0 {
            return Ok(());
        }
        let snapshot = match self.region.peek(self.tail) {
            Ok(snapshot) => snapshot,
            Err(e) => {
                return Err(e);
            },
        };
        let frame = match decode_frame(snapshot.data.as_slice()) {
            Ok(frame) => frame,
            Err(e) => {
                return Err(e);
            },
        };
        let slots_to_drop: usize = if is_chunked(&frame) {
            match chunk_info(&frame) {
                Err(e) => {
                    return Err(e);
                },
                Ok(info) => {
                    if info.index != 0 {
                        return Err(DslineError::Channel(ChannelError::CorruptedMessage));
                    }
                    info.total
                },
            }
        } else {
            1
        };
        self.discard(slots_to_drop)
    }

    /// Drops messages at the tail until the given number of slots is free.
    fn clear_room(&mut self, needed: usize) -> (r: Result<(), DslineError>)
        requires
            old(self).wf(),
            needed <= old(self)@.config.capacity,
        ensures
            final(self).wf(),
            Self::same_settings(old(self), final(self)),
            told(old(self).fault(), final(self).fault(), r),
            old(self)@.len > 0 && !old(self)@.has_room(needed as nat) ==> (old(
                self,
            ).backing().unreadable(old(self)@.tail as usize) matches Some(e) ==> r == Err::<
                (),
                DslineError,
            >(e)),
            final(self)@.next_seq == old(self)@.next_seq,
            final(self)@.last_seq == old(self)@.last_seq,
            r is Ok ==> final(self)@.has_room(needed as nat),
            old(self).shape().stable ==> (final(self)@, r) == old(self)@.cleared(needed as nat),
    {
        let ghost all = self@.cleared(needed as nat);
        while self.config.capacity - self.len < needed
            invariant
                self.wf(),
                Self::same_settings(old(self), self),
                self.fault() == old(self).fault(),
                self@.next_seq == old(self)@.next_seq,
                self@.last_seq == old(self)@.last_seq,
                needed <= self@.config.capacity,
                self@.len == old(self)@.len ==> *self == *old(self),
                self@.len <= old(self)@.len,
                old(self)@.len > 0 && !old(self)@.has_room(needed as nat) && old(
                    self,
                ).backing().unreadable(old(self)@.tail as usize) is Some ==> *self == *old(self),
                all == old(self)@.cleared(needed as nat),
                self.shape().stable ==> all == self@.cleared(needed as nat),
            decreases self.len,
        {
            match self.drop_oldest_message() {
                Ok(()) => {},
                Err(e) => {
                    return Err(e);
                },
            }
        }
        Ok(())
    }

    /// Makes room for a message as configured. A policy to wait fails at once: the caller that
    /// holds this queue is the one to wait. `Ok(false)` means that the message is discarded.
    fn prepare_send_slots(&mut self, needed: usize) -> (r: Result<bool, DslineError>)
        requires
            old(self).wf(),
            needed <= old(self)@.config.capacity,
        ensures
            final(self).wf(),
            Self::same_settings(old(self), final(self)),
            told(old(self).fault(), final(self).fault(), r),
            final(self)@.next_seq == old(self)@.next_seq,
            final(self)@.last_seq == old(self)@.last_seq,
            r matches Ok(true) ==> final(self)@.has_room(needed as nat),
            r matches Ok(false) ==> *final(self) == *old(self) && old(
                self,
            )@.config.backpressure is DropNewest && !old(self)@.has_room(needed as nat),
            !old(self)@.has_room(needed as nat) && !(old(self)@.config.backpressure is DropOldest)
                ==> *final(self) == *old(self) && r == old(self)@.prepared(needed as nat).1,
            old(self).shape().stable ==> (final(self)@, r) == old(self)@.prepared(needed as nat),
    {
        if self.config.capacity - self.len >= needed {
            return Ok(true);
        }
        match self.config.backpressure {
            Backpressure::Raise | Backpressure::Block => Err(
                DslineError::Channel(ChannelError::BufferFull),
            ),
            Backpressure::DropNewest => Ok(false),
            Backpressure::DropOldest => match self.clear_room(needed) {
                Ok(()) => Ok(true),
                Err(e) => Err(e),
            },
        }
    }

    /// Writes the frames of a message at the head, until a slot is not free.
    fn store(
        &mut self,
        seq: u64,
        frames: Vec<Vec<u8>>,
        Ghost(views): Ghost<Seq<FrameView>>,
    ) -> (r: Result<(), DslineError>)
        requires
            old(self).wf(),
            old(self)@.has_room(frames@.len()),
            views.len() == frames@.len(),
            forall|i: int| 0 <= i < views.len() ==> #[trigger] frames@[i]@ == frame_bytes(views[i]),
            forall|i: int|
                0 <= i < frames@.len() ==> #[trigger] frames@[i]@.len() <= old(
                    self,
                )@.config.slot_size + FRAME_HEADER_LEN,
        ensures
            final(self).wf(),
            Self::same_settings(old(self), final(self)),
            told(old(self).fault(), final(self).fault(), r),
            Self::same_numbers(old(self), final(self)),
            old(self).shape().stable ==> (final(self)@, r) == old(self)@.stored(seq, views),
    {
        let ghost all = self@.stored(seq, views);
        let mut i: usize = 0;
        proof {
            assert(views.skip(0) =~= views);
        }
        while i < frames.len()
            invariant
                self.wf(),
                i <= frames@.len(),
                Self::same_settings(old(self), self),
                self.fault() == old(self).fault(),
                Self::same_numbers(old(self), self),
                self@.has_room((frames@.len() - i) as nat),
                views.len() == frames@.len(),
                forall|i: int|
                    0 <= i < views.len() ==> #[trigger] frames@[i]@ == frame_bytes(views[i]),
                forall|i: int|
                    0 <= i < frames@.len() ==> #[trigger] frames@[i]@.len() <= old(
                        self,
                    )@.config.slot_size + FRAME_HEADER_LEN,
                all == old(self)@.stored(seq, views),
                self.shape().stable ==> all == self@.stored(seq, views.skip(i as int)),
            decreases frames@.len() - i,
        {
            proof {
                assert(views.skip(i as int).skip(1) =~= views.skip(i + 1));
                assert(frames@[i as int]@ == frame_bytes(views[i as int]));
            }
            match self.region.commit(self.head, seq, frames[i].as_slice()) {
                Ok(()) => {},
                Err(e) => {
                    return Err(e);
                },
            }
            self.head = self.after(self.head);
            self.len += 1;
            i += 1;
        }
        Ok(())
    }

    /// Sends a message.
    pub fn send(&mut self, bytes: &[u8]) -> (r: Result<(), DslineError>)
        requires
            old(self).wf(),
        ensures
            final(self).wf(),
            Self::same_settings(old(self), final(self)),
            told(old(self).fault(), final(self).fault(), r),
            final(self)@.last_seq == old(self)@.last_seq,
            final(self)@.next_seq == old(self)@.next_seq || final(self)@.next_seq == seq_after(
                old(self)@.next_seq,
            ),
            r is Ok && !(old(self)@.config.backpressure is DropNewest) ==> final(self)@.next_seq
                == seq_after(old(self)@.next_seq),
            old(self)@.is_decided(bytes@) ==> *final(self) == *old(self) && r == old(self)@.sent(
                bytes@,
            ).1,
            old(self).shape().stable ==> (final(self)@, r) == old(self)@.sent(bytes@),
    {
        if self.closed {
            return Err(DslineError::Channel(ChannelError::Closed));
        }
        let plan = match send_plan(&self.config, bytes.len()) {
            Ok(plan) => plan,
            Err(e) => {
                return Err(e);
            },
        };
        proof {
            lemma_plan_fits(self.config, bytes@.len());
        }
        match self.prepare_send_slots(plan.needed_slots) {
            Ok(true) => {},
            Ok(false) => {
                return Ok(());
            },
            Err(e) => {
                return Err(e);
            },
        }
        let seq: u64 = self.next_seq;
        self.next_seq = self.next_seq.wrapping_add(1);
        let frames = encode_message_frames(&self.config, plan, seq, bytes);
        let ghost views = message_frames(self.config, seq, bytes@);
        self.store(seq, frames, Ghost(views))
    }

    /// Takes one step of sending a message with waiting for room.
    pub fn send_step(&mut self, bytes: &[u8], event: SendEvent) -> (step: SendStep)
        requires
            old(self).wf(),
        ensures
            final(self).wf(),
            Self::same_settings(old(self), final(self)),
            told_step(old(self).fault(), final(self).fault(), step),
            final(self)@.last_seq == old(self)@.last_seq,
            event == SendEvent::TimedOut || old(self)@.is_decided(bytes@) ==> *final(self) == *old(
                self,
            ) && step == old(self)@.send_stepped(bytes@, event).1,
            step is Wait <==> event != SendEvent::TimedOut && old(self)@.has_to_wait(bytes@),
            old(self).shape().stable ==> (final(self)@, step) == old(self)@.send_stepped(
                bytes@,
                event,
            ),
    {
        match event {
            SendEvent::TimedOut => {
                return SendStep::Done(Err(DslineError::Channel(ChannelError::BufferFull)));
            },
            _ => {},
        }
        if !self.closed && self.config.wait_limit().is_some() {
            match send_plan(&self.config, bytes.len()) {
                Ok(plan) => {
                    if self.config.capacity - self.len < plan.needed_slots {
                        return SendStep::Wait;
                    }
                },
                Err(_) => {},
            }
        }
        SendStep::Done(self.send(bytes))
    }

    /// The state and sequence number of each slot.
    fn slot_headers(&self) -> (r: Result<Vec<SlotHeader>, DslineError>)
        requires
            self.wf(),
        ensures
            (exists|i: usize|
                i < self@.config.capacity && #[trigger] self.backing().hidden(i) is Some) ==> r
                is Err,
            r matches Ok(headers) ==> headers@.len() == self@.config.capacity,
            self.shape().stable ==> r is Ok && self.shown_by(r->Ok_0@),
    {
        let mut headers: Vec<SlotHeader> = Vec::new();
        let mut index: usize = 0;
        while index < self.config.capacity
            invariant
                self.wf(),
                index <= self.config.capacity,
                headers@.len() == index,
                forall|i: usize| i < index ==> #[trigger] self.backing().hidden(i) is None,
                self.shape().stable ==> forall|i: int|
                    0 <= i < index ==> (#[trigger] headers@[i]).state == self@.slots[i].state
                        && headers@[i].seq == self@.slots[i].seq,
            decreases self.config.capacity - index,
        {
            match self.region.slot_header(index) {
                Ok((state, seq)) => {
                    headers.push(SlotHeader { state, seq });
                },
                Err(e) => {
                    return Err(e);
                },
            }
            index += 1;
        }
        Ok(headers)
    }

    /// Whether these are the headers of the slots.
    closed spec fn shown_by(&self, headers: Seq<SlotHeader>) -> bool {
        &&& headers.len() == self@.config.capacity
        &&& forall|i: int|
            0 <= i < headers.len() ==> (#[trigger] headers[i]).state == self@.slots[i].state
                && headers[i].seq == self@.slots[i].seq
    }

    /// How many slots are in use, and the sequence number after all those in them.
    fn survey(&self, headers: &Vec<SlotHeader>) -> (r: (usize, u64))
        requires
            self.wf(),
            headers@.len() == self@.config.capacity,
        ensures
            r.0 <= self@.config.capacity,
            self.shown_by(headers@) ==> r.0 == self@.used_below(self@.config.capacity as nat)
                && r.1 == self@.numbered_below(self@.config.capacity as nat),
    {
        let mut used: usize = 0;
        let mut next_seq: u64 = self.next_seq;
        let mut index: usize = 0;
        while index < headers.len()
            invariant
                self.wf(),
                headers@.len() == self@.config.capacity,
                used <= index <= headers@.len(),
                self.shown_by(headers@) ==> used == self@.used_below(index as nat) && next_seq
                    == self@.numbered_below(index as nat),
            decreases headers@.len() - index,
        {
            let header = headers[index];
            if occupied(header.state) {
                used += 1;
                let candidate: u64 = header.seq.wrapping_add(1);
                if sequence_precedes(next_seq, candidate) {
                    next_seq = candidate;
                }
            }
            index += 1;
        }
        (used, next_seq)
    }

    /// The first slot that is in use while the slot before it is not.
    fn find_run_start(&self, headers: &Vec<SlotHeader>) -> (r: Option<usize>)
        requires
            self.wf(),
            headers@.len() == self@.config.capacity,
        ensures
            r matches Some(index) ==> index < self@.config.capacity,
            self.shown_by(headers@) ==> match self@.run_start(0) {
                Some(index) => r matches Some(i) && i == index,
                None => r is None,
            },
    {
        let mut index: usize = 0;
        while index < headers.len()
            invariant
                self.wf(),
                headers@.len() == self@.config.capacity,
                index <= headers@.len(),
                self.shown_by(headers@) ==> self@.run_start(0) == self@.run_start(index as int),
            decreases headers@.len() - index,
        {
            let before: usize = if index == 0 {
                headers.len() - 1
            } else {
                index - 1
            };
            if occupied(headers[index].state) && !occupied(headers[before].state) {
                return Some(index);
            }
            index += 1;
        }
        None
    }

    /// The chunk index of what a slot holds. Where no chunk can be read there, that is zero.
    fn chunk_index_for_slot(&self, index: usize, state: SlotState) -> (chunk: usize)
        requires
            self.wf(),
            index < self@.config.capacity,
        ensures
            self.shape().stable && self@.slots[index as int].state == state ==> chunk
                == chunk_index_of(self@.slots[index as int]),
    {
        if state != SlotState::Committed {
            return 0;
        }
        let snapshot = match self.region.peek(index) {
            Ok(snapshot) => snapshot,
            Err(_) => {
                return 0;
            },
        };
        let frame = match decode_frame(snapshot.data.as_slice()) {
            Ok(frame) => frame,
            Err(_) => {
                return 0;
            },
        };
        if is_chunked(&frame) {
            match chunk_info(&frame) {
                Ok(info) => info.index,
                Err(_) => 0,
            }
        } else {
            0
        }
    }

    /// Whether a slot was written before another.
    fn slot_precedes(&self, headers: &Vec<SlotHeader>, left: usize, right: usize) -> (before: bool)
        requires
            self.wf(),
            headers@.len() == self@.config.capacity,
            left < headers@.len(),
            right < headers@.len(),
        ensures
            self.shape().stable && self.shown_by(headers@) ==> before == slot_precedes(
                self@.slots[left as int],
                self@.slots[right as int],
            ),
    {
        if headers[left].seq != headers[right].seq {
            return sequence_precedes(headers[left].seq, headers[right].seq);
        }
        self.chunk_index_for_slot(left, headers[left].state) < self.chunk_index_for_slot(
            right,
            headers[right].state,
        )
    }

    /// The oldest of the slots that are in use.
    fn find_oldest(&self, headers: &Vec<SlotHeader>) -> (r: Option<usize>)
        requires
            self.wf(),
            headers@.len() == self@.config.capacity,
        ensures
            r matches Some(index) ==> index < self@.config.capacity,
            self.shape().stable && self.shown_by(headers@) ==> match self@.oldest_below(
                self@.config.capacity as nat,
            ) {
                None => r is None,
                Some(index) => r matches Some(i) && i == index,
            },
    {
        let mut oldest: Option<usize> = None;
        let mut index: usize = 0;
        while index < headers.len()
            invariant
                self.wf(),
                headers@.len() == self@.config.capacity,
                index <= headers@.len(),
                oldest matches Some(i) ==> i < headers@.len(),
                self.shape().stable && self.shown_by(headers@) ==> match self@.oldest_below(
                    index as nat,
                ) {
                    None => oldest is None,
                    Some(best) => oldest matches Some(i) && i == best,
                },
            decreases headers@.len() - index,
        {
            if occupied(headers[index].state) {
                match oldest {
                    None => {
                        oldest = Some(index);
                    },
                    Some(other) => {
                        if self.slot_precedes(headers, index, other) {
                            oldest = Some(index);
                        }
                    },
                }
            }
            index += 1;
        }
        oldest
    }

    /// Where the oldest frame is.
    fn infer_tail(&self, headers: &Vec<SlotHeader>) -> (tail: usize)
        requires
            self.wf(),
            headers@.len() == self@.config.capacity,
        ensures
            tail < self@.config.capacity,
            self.shape().stable && self.shown_by(headers@) ==> tail == self@.found_tail(),
    {
        match self.find_run_start(headers) {
            Some(index) => {
                return index;
            },
            None => {},
        }
        if self.len > 0 && occupied(headers[self.tail].state) {
            return self.tail;
        }
        match self.find_oldest(headers) {
            None => self.tail,
            Some(index) => index,
        }
    }

    /// The first free slot from the tail on, or the tail where none is free.
    fn infer_head(&self, headers: &Vec<SlotHeader>, tail: usize) -> (head: usize)
        requires
            self.wf(),
            headers@.len() == self@.config.capacity,
            tail < self@.config.capacity,
        ensures
            head < self@.config.capacity,
            self.shown_by(headers@) ==> head == self@.free_from(
                tail as int,
                self@.config.capacity as nat,
            ),
    {
        let mut head: usize = tail;
        let mut left: usize = headers.len();
        while left > 0
            invariant
                self.wf(),
                headers@.len() == self@.config.capacity,
                head < self@.config.capacity,
                self.shown_by(headers@) ==> self@.free_from(
                    tail as int,
                    self@.config.capacity as nat,
                ) == self@.free_from(head as int, left as nat),
            decreases left,
        {
            if headers[head].state == SlotState::Free {
                return head;
            }
            head = self.after(head);
            left -= 1;
        }
        head
    }

    /// Finds the positions again from what the slots hold.
    pub fn refresh(&mut self) -> (r: Result<(), DslineError>)
        requires
            old(self).wf(),
        ensures
            final(self).wf(),
            Self::same_settings(old(self), final(self)),
            told(old(self).fault(), final(self).fault(), r),
            (exists|i: usize|
                i < old(self)@.config.capacity && #[trigger] old(self).backing().hidden(i) is Some)
                ==> r is Err,
            final(self).backing() == old(self).backing(),
            final(self)@.partial == old(self)@.partial,
            final(self)@.last_seq == old(self)@.last_seq,
            r is Err ==> *final(self) == *old(self),
            old(self).shape().stable ==> final(self)@ == old(self)@.refreshed() && r == Ok::<
                (),
                DslineError,
            >(()),
    {
        let headers = match self.slot_headers() {
            Ok(headers) => headers,
            Err(e) => {
                return Err(e);
            },
        };
        let (used, next_seq): (usize, u64) = self.survey(&headers);
        if used == 0 {
            self.len = 0;
            self.head = 0;
            self.tail = 0;
            self.expected_recv_seq = self.next_seq;
            return Ok(());
        }
        let tail: usize = self.infer_tail(&headers);
        let head: usize = self.infer_head(&headers, tail);
        self.len = used;
        self.tail = tail;
        self.head = head;
        self.next_seq = next_seq;
        self.expected_recv_seq = headers[tail].seq;
        Ok(())
    }

    /// An empty queue over a region of free slots.
    pub fn new(config: SpscConfig, region: R, waits: bool) -> (ring: Self)
        requires
            config.problem() is None,
            region.valid(),
            region.shape().capacity == config.capacity,
            region.shape().frame_room >= config.slot_size + FRAME_HEADER_LEN,
        ensures
            ring.wf(),
            ring.shape() == region.shape(),
            ring.backing() == region,
            ring.fault() == region.fault(),
            ring@ == (QueueView {
                config,
                slots: region.slots(),
                len_range: region.shape().len_range,
                waits,
                head: 0,
                tail: 0,
                len: 0,
                next_seq: 0,
                expected_seq: 0,
                last_seq: None,
                closed: false,
                partial: None,
            }),
    {
        Ring {
            config,
            region,
            waits,
            head: 0,
            tail: 0,
            len: 0,
            next_seq: 0,
            expected_recv_seq: 0,
            last_received_seq: None,
            closed: false,
            partial: None,
        }
    }

    /// Stops further sends.
    pub fn close(&mut self)
        requires
            old(self).wf(),
        ensures
            final(self).wf(),
            final(self).shape() == old(self).shape(),
            final(self).fault() == old(self).fault(),
            final(self).backing() == old(self).backing(),
            final(self)@ == (QueueView { closed: true, ..old(self)@ }),
    {
        self.closed = true;
    }

    pub fn is_closed(&self) -> (closed: bool)
        ensures
            closed == self@.closed,
    {
        self.closed
    }

    pub fn len(&self) -> (len: usize)
        ensures
            len == self@.len,
    {
        self.len
    }

    pub fn config(&self) -> (config: &SpscConfig)
        ensures
            *config == self@.config,
    {
        &self.config
    }

    pub fn region(&self) -> (region: &R)
        requires
            self.wf(),
        ensures
            *region == self.backing(),
            region.valid(),
            region.shape() == self.shape(),
            region.slots() == self@.slots,
    {
        &self.region
    }

    pub fn next_sequence(&self) -> (seq: u64)
        ensures
            seq == self@.next_seq,
    {
        self.next_seq
    }

    pub fn expected_recv_sequence(&self) -> (seq: u64)
        ensures
            seq == self@.expected_seq,
    {
        self.expected_recv_seq
    }

    pub fn last_received_sequence(&self) -> (seq: Option<u64>)
        ensures
            seq == self@.last_seq,
    {
        self.last_received_seq
    }

    pub fn has_partial(&self) -> (partial: bool)
        ensures
            partial == (self@.partial is Some),
    {
        self.partial.is_some()
    }

    pub fn set_next_sequence(&mut self, seq: u64)
        requires
            old(self).wf(),
        ensures
            final(self).wf(),
            final(self).shape() == old(self).shape(),
            final(self).fault() == old(self).fault(),
            final(self)@ == (QueueView { next_seq: seq, ..old(self)@ }),
    {
        self.next_seq = seq;
    }

    pub fn set_expected_recv_sequence(&mut self, seq: u64)
        requires
            old(self).wf(),
        ensures
            final(self).wf(),
            final(self).shape() == old(self).shape(),
            final(self).fault() == old(self).fault(),
            final(self)@ == (QueueView { expected_seq: seq, ..old(self)@ }),
    {
        self.expected_recv_seq = seq;
    }

    /// The frame at the tail, where there is one with a whole header.
    fn oldest_bytes(&self) -> (r: Result<Vec<u8>, DslineError>)
        requires
            self.wf(),
        ensures
            r matches Ok(bytes) ==> FRAME_HEADER_LEN <= bytes@.len() <= self.shape().frame_room,
            self.shape().stable ==> match self@.whole_frame() {
                Ok(bytes) => r is Ok && r->Ok_0@ == bytes,
                Err(e) => r == Err::<Vec<u8>, DslineError>(e),
            },
    {
        match self.region.peek(self.tail) {
            Err(e) => Err(e),
            Ok(snapshot) => if snapshot.data.len() >= FRAME_HEADER_LEN {
                Ok(snapshot.data)
            } else {
                Err(DslineError::Channel(ChannelError::CorruptedMessage))
            },
        }
    }

    /// Damages the frame at the tail: the checksum that it declares becomes wrong.
    pub fn corrupt_oldest_checksum(&mut self) -> (r: Result<(), DslineError>)
        requires
            old(self).wf(),
        ensures
            final(self).wf(),
            Self::same_settings(old(self), final(self)),
            told(old(self).fault(), final(self).fault(), r),
            old(self).shape().stable ==> match old(self)@.whole_frame() {
                Ok(bytes) => r is Ok && final(self)@ == old(self)@.rewritten(misdeclared(bytes)),
                Err(e) => r == Err::<(), DslineError>(e) && final(self)@ == old(self)@,
            },
    {
        match self.oldest_bytes() {
            Err(e) => Err(e),
            Ok(bytes) => {
                let damaged = misdeclare_checksum(bytes.as_slice());
                self.region.rewrite(self.tail, damaged.as_slice())
            },
        }
    }

    /// Damages the frame at the tail: it gets another sequence number.
    pub fn renumber_oldest(&mut self, seq: u64) -> (r: Result<(), DslineError>)
        requires
            old(self).wf(),
        ensures
            final(self).wf(),
            Self::same_settings(old(self), final(self)),
            told(old(self).fault(), final(self).fault(), r),
            old(self).shape().stable ==> match old(self)@.whole_frame() {
                Ok(bytes) => r is Ok && final(self)@ == old(self)@.rewritten(
                    renumbered(bytes, seq),
                ),
                Err(e) => r == Err::<(), DslineError>(e) && final(self)@ == old(self)@,
            },
    {
        match self.oldest_bytes() {
            Err(e) => Err(e),
            Ok(bytes) => {
                let damaged = renumber(bytes.as_slice(), seq);
                self.region.rewrite(self.tail, damaged.as_slice())
            },
        }
    }
}

/// The state and sequence number of a slot.
#[derive(Debug, Clone, Copy, PartialEq, Eq)]
struct SlotHeader {
    state: SlotState,
    seq: u64,
}

/// Whether a slot in this state is in use.
fn occupied(state: SlotState) -> (in_use: bool)
    ensures
        in_use == is_occupied(state),
{
    match state {
        SlotState::Committed | SlotState::Pinned | SlotState::Writing => true,
        _ => false,
    }
}

} // verus!
