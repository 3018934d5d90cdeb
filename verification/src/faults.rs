//! What becomes of a slot that is not what it should be: what receiving tells, and what it leaves.

use crate::checksum::fnv1a;
use crate::chunk::{chunk_problem, label, labelled, message_frames, planned, ChunkInfo};
use crate::delivery::lemma_message_frames;
use crate::error::{ChannelError, DslineError};
use crate::frame::{frame_bytes, parsed_frame, FrameView, MetadataView};
use crate::persistent::PersistentSlotRegion;
use crate::queue::{Outcome, Piece, QueueView};
use crate::slot::{SlotRegion, SlotState, SlotView};
use crate::spsc::Backpressure;
use crate::storage::FixedSlotStorage;
use crate::wire::{eight, lemma_numbers};
use vstd::arithmetic::div_mod::lemma_small_mod;
use vstd::prelude::*;

verus! {

/// Whether a slot is ready to be read and holds these bytes.
pub open spec fn ready_with(slot: SlotView, bytes: Seq<u8>) -> bool {
    &&& slot.state == SlotState::Committed
    &&& slot.len == bytes.len()
    &&& bytes.len() <= slot.body.len()
    &&& forall|i: int| 0 <= i < bytes.len() ==> slot.body[i] == #[trigger] bytes[i]
}

/// Whether one state follows from another when the slot at the tail has been given up: it is free,
/// the others are as they were, and the next slot is the first one.
pub open spec fn gave_up_slot(before: QueueView, after: QueueView) -> bool {
    &&& after.slots.len() == before.slots.len()
    &&& after.slots[before.tail].state == SlotState::Free
    &&& forall|i: int|
        0 <= i < before.slots.len() && i != before.tail ==> #[trigger] after.slots[i]
            == before.slots[i]
    &&& after.tail == if before.tail + 1 == before.config.capacity {
        0
    } else {
        before.tail + 1
    }
    &&& after.len == before.len - 1
    &&& after.head == before.head
    &&& after.next_seq == before.next_seq
    &&& after.closed == before.closed
    &&& after.config == before.config
    &&& after.partial is None
}

/// Whether one state follows from another when the slot at the tail has been pinned and no more.
pub open spec fn kept_slot(before: QueueView, after: QueueView) -> bool {
    &&& after.slots.len() == before.slots.len()
    &&& after.slots[before.tail].state == SlotState::Pinned
    &&& after.slots[before.tail].body == before.slots[before.tail].body
    &&& after.slots[before.tail].seq == before.slots[before.tail].seq
    &&& forall|i: int|
        0 <= i < before.slots.len() && i != before.tail ==> #[trigger] after.slots[i]
            == before.slots[i]
    &&& after == (QueueView { slots: after.slots, ..before })
}

/// Whether a queue has something in use and nothing in progress.
pub open spec fn can_be_read(queue: QueueView) -> bool {
    &&& queue.len > 0
    &&& queue.partial is None
    &&& queue.slots.len() == queue.config.capacity
    &&& 0 <= queue.tail < queue.config.capacity
}

/// A slot that holds these bytes gives them.
proof fn lemma_ready(slot: SlotView, bytes: Seq<u8>)
    requires
        ready_with(slot, bytes),
    ensures
        slot.committed_frame() == Ok::<Seq<u8>, DslineError>(bytes),
{
    assert(slot.body.take(bytes.len() as int) =~= bytes);
}

/// The number that follows another; after the largest comes zero.
pub open spec fn following(seq: u64) -> u64 {
    if seq == 0xffff_ffff_ffff_ffff {
        0
    } else {
        (seq + 1) as u64
    }
}

/// What receiving makes of a slot that can be read: one with a number that is not due stays
/// pinned; bytes that are no frame, a frame of another kind or with a wrong checksum, and one with
/// another number than its slot cost their message; a whole message comes out; a later chunk where
/// a message should start stays pinned.
pub proof fn law_receiving_goes_by_the_slot(queue: QueueView, bytes: Seq<u8>)
    requires
        can_be_read(queue),
        ready_with(queue.slots[queue.tail], bytes),
    ensures
        ({
            let (after, outcome) = queue.received();
            let seq = queue.slots[queue.tail].seq;
            if seq != queue.expected_seq {
                &&& kept_slot(queue, after)
                &&& outcome == Outcome::Failed(
                    DslineError::Channel(
                        ChannelError::SequenceMismatch {
                            expected: queue.expected_seq,
                            actual: seq,
                        },
                    ),
                )
            } else {
                match parsed_frame(bytes) {
                    Err(e) => {
                        &&& gave_up_slot(queue, after)
                        &&& after.expected_seq == following(seq)
                        &&& after.last_seq == queue.last_seq
                        &&& outcome == Outcome::Failed(DslineError::Protocol(e))
                    },
                    Ok(frame) => if !(frame.header.kind is Bytes) || frame.header.checksum
                        != fnv1a(frame.payload) {
                        &&& gave_up_slot(queue, after)
                        &&& after.expected_seq == following(seq)
                        &&& after.last_seq == queue.last_seq
                        &&& outcome == Outcome::Failed(
                            DslineError::Channel(ChannelError::CorruptedMessage),
                        )
                    } else if frame.header.seq != seq {
                        &&& gave_up_slot(queue, after)
                        &&& after.expected_seq == following(seq)
                        &&& after.last_seq == queue.last_seq
                        &&& outcome == Outcome::Failed(
                            DslineError::Channel(
                                ChannelError::SequenceMismatch {
                                    expected: seq,
                                    actual: frame.header.seq,
                                },
                            ),
                        )
                    } else if frame.header.flags % 2 == 0 {
                        &&& gave_up_slot(queue, after)
                        &&& after.expected_seq == following(seq)
                        &&& after.last_seq == Some(seq)
                        &&& outcome == (Outcome::Message { seq, payload: frame.payload })
                    } else {
                        match labelled(frame.metadata) {
                            Err(e) => {
                                &&& kept_slot(queue, after)
                                &&& outcome == Outcome::Failed(DslineError::Channel(e))
                            },
                            Ok(info) => info.index != 0 ==> {
                                &&& kept_slot(queue, after)
                                &&& outcome == Outcome::Failed(
                                    DslineError::Channel(ChannelError::CorruptedMessage),
                                )
                            },
                        }
                    },
                }
            }
        }),
{
    lemma_ready(queue.slots[queue.tail], bytes);
    match parsed_frame(bytes) {
        Err(_) => {},
        Ok(frame) => {
            let flags = frame.header.flags;
            assert((flags & 1 != 0) == (flags % 2 != 0)) by (bit_vector);
        },
    }
}

/// What receiving makes of a queue with nothing in use, and of a slot that is not ready: where
/// slots are shared it is waited for until the channel is closed, and otherwise there is nothing.
pub proof fn law_nothing_ready_changes_nothing(queue: QueueView)
    requires
        queue.partial is None,
    ensures
        queue.len == 0 ==> queue.received() == (
            queue,
            Outcome::Failed(
                DslineError::Channel(
                    if queue.closed {
                        ChannelError::Closed
                    } else {
                        ChannelError::BufferEmpty
                    },
                ),
            ),
        ),
        queue.len > 0 && queue.slots[queue.tail].state != SlotState::Committed ==> queue.received()
            == (
            queue,
            if !queue.waits {
                Outcome::Failed(DslineError::Channel(ChannelError::BufferEmpty))
            } else if queue.closed {
                Outcome::Failed(DslineError::Channel(ChannelError::Closed))
            } else {
                Outcome::Waiting
            },
        ),
        queue.len > 0 && queue.slots[queue.tail].state == SlotState::Committed
            && queue.slots[queue.tail].len > queue.slots[queue.tail].body.len() ==> queue.received()
            == (
            queue,
            Outcome::Failed(
                DslineError::Channel(
                    ChannelError::MessageTooLarge {
                        len: queue.slots[queue.tail].len as usize,
                        slot_size: queue.slots[queue.tail].body.len() as usize,
                    },
                ),
            ),
        ),
{
}

/// A label of a chunk is the number in the eight bytes of the first item of its type; without such
/// an item, or with another length, the message is damaged.
pub proof fn law_label_is_the_first_of_its_type(items: Seq<MetadataView>, ty: u16, at: int)
    ensures
        (forall|i: int| 0 <= i < items.len() ==> (#[trigger] items[i]).ty != ty) ==> label(
            items,
            ty,
        ) == Err::<usize, ChannelError>(ChannelError::CorruptedMessage),
        0 <= at < items.len() && items[at].ty == ty && (forall|i: int|
            0 <= i < at ==> (#[trigger] items[i]).ty != ty) ==> label(items, ty) == if items[
        at].value.len() != 8 {
            Err::<usize, ChannelError>(ChannelError::CorruptedMessage)
        } else if eight(items[at].value, 0) > usize::MAX {
            Err(ChannelError::InvalidConfig("chunk metadata overflow"))
        } else {
            Ok(eight(items[at].value, 0) as usize)
        },
    decreases items.len(),
{
    if items.len() > 0 {
        let rest = items.skip(1);
        law_label_is_the_first_of_its_type(rest, ty, at - 1);
        if items[0].ty == ty && items[0].value.len() == 8 {
            lemma_numbers(items[0].value, 0);
            assert(items[0].value.subrange(0, 8) =~= items[0].value);
        }
        if forall|i: int| 0 <= i < items.len() ==> (#[trigger] items[i]).ty != ty {
            assert(items[0].ty != ty);
            assert forall|i: int| 0 <= i < rest.len() implies (#[trigger] rest[i]).ty != ty by {
                assert(rest[i] == items[i + 1]);
            }
        }
        if 0 < at < items.len() && items[at].ty == ty && (forall|i: int|
            0 <= i < at ==> (#[trigger] items[i]).ty != ty) {
            assert(items[0].ty != ty);
            assert(rest[at - 1] == items[at]);
            assert forall|i: int| 0 <= i < at - 1 implies (#[trigger] rest[i]).ty != ty by {
                assert(rest[i] == items[i + 1]);
            }
        }
    }
}

/// The place of a chunk is what its three labels, of the types 100, 101 and 102, say: its index,
/// how many chunks there are, and the length of the message. An index beyond the last is damage.
pub proof fn law_place_is_what_the_labels_say(items: Seq<MetadataView>, info: ChunkInfo)
    ensures
        labelled(items) == Ok::<ChunkInfo, ChannelError>(info) <==> {
            &&& label(items, 100) == Ok::<usize, ChannelError>(info.index)
            &&& label(items, 101) == Ok::<usize, ChannelError>(info.total)
            &&& label(items, 102) == Ok::<usize, ChannelError>(info.message_len)
            &&& info.index < info.total
        },
{
}

/// A frame is taken as the chunk that is due exactly where it is of kind bytes, is intact, has the
/// number of its message, is marked as a chunk, has the labels that are due, and is marked as the
/// first and as the last chunk where it is that.
pub proof fn law_chunk_is_taken_exactly(frame: FrameView, seq: u64, due: ChunkInfo)
    ensures
        chunk_problem(frame, seq, due) is None <==> {
            let flags = frame.header.flags;
            &&& frame.header.kind is Bytes
            &&& frame.header.checksum == fnv1a(frame.payload)
            &&& frame.header.seq == seq
            &&& flags % 2 == 1
            &&& labelled(frame.metadata) == Ok::<ChunkInfo, ChannelError>(due)
            &&& (flags / 2) % 2 == 1 <==> due.index == 0
            &&& (flags / 4) % 2 == 1 <==> due.index + 1 == due.total
        },
        chunk_problem(frame, seq, due) matches Some(e) ==> e == ChannelError::CorruptedMessage
            || labelled(frame.metadata) == Err::<ChunkInfo, ChannelError>(e),
{
    let flags = frame.header.flags;
    assert((flags & 1 != 0) == (flags % 2 == 1)) by (bit_vector);
    assert((flags & 2 != 0) == ((flags / 2) % 2 == 1)) by (bit_vector);
    assert((flags & 4 != 0) == ((flags / 4) % 2 == 1)) by (bit_vector);
}

/// What receiving one more chunk makes of a slot that can be read: one that is not the chunk due
/// stays pinned, and one that is gives its part and is given up.
pub proof fn law_chunk_goes_by_the_slot(queue: QueueView, seq: u64, due: ChunkInfo, bytes: Seq<u8>)
    requires
        can_be_read(queue),
        ready_with(queue.slots[queue.tail], bytes),
    ensures
        ({
            let (after, piece) = queue.took_chunk(seq, due);
            let noted = queue.slots[queue.tail].seq;
            if noted != seq {
                &&& kept_slot(queue, after)
                &&& piece == Piece::Failed(
                    DslineError::Channel(
                        ChannelError::SequenceMismatch { expected: seq, actual: noted },
                    ),
                )
            } else {
                match parsed_frame(bytes) {
                    Err(e) => {
                        &&& kept_slot(queue, after)
                        &&& piece == Piece::Failed(DslineError::Protocol(e))
                    },
                    Ok(frame) => match chunk_problem(frame, seq, due) {
                        Some(e) => {
                            &&& kept_slot(queue, after)
                            &&& piece == Piece::Failed(DslineError::Channel(e))
                        },
                        None => {
                            &&& gave_up_slot(queue, after)
                            &&& after.expected_seq == queue.expected_seq
                            &&& after.last_seq == queue.last_seq
                            &&& piece == Piece::Part(frame.payload)
                        },
                    },
                }
            }
        }),
{
    lemma_ready(queue.slots[queue.tail], bytes);
}

/// When the last chunk is in, the message comes out whole, and only where it is as long as it was
/// said to be.
pub proof fn law_message_is_as_long_as_said(
    queue: QueueView,
    seq: u64,
    info: ChunkInfo,
    payload: Seq<u8>,
)
    ensures
        payload.len() == info.message_len ==> {
            let (after, outcome) = queue.gathered(seq, info, info.total as int, payload);
            &&& outcome == (Outcome::Message { seq, payload })
            &&& after.expected_seq == following(queue.expected_seq)
            &&& after.last_seq == Some(seq)
            &&& after.slots == queue.slots
        },
        payload.len() != info.message_len ==> queue.gathered(
            seq,
            info,
            info.total as int,
            payload,
        ) == (queue, Outcome::Failed(DslineError::Channel(ChannelError::CorruptedMessage))),
{
}

/// Chunks are taken one after the other, each with the next index, and their parts are put one
/// behind the other; where a slot is not ready yet, what has been taken is kept, and receiving
/// goes on from there; where one cannot be taken, that is the answer.
pub proof fn law_chunks_are_put_together(
    queue: QueueView,
    seq: u64,
    info: ChunkInfo,
    next: int,
    payload: Seq<u8>,
)
    requires
        0 <= next < info.total,
        queue.partial is None,
    ensures
        ({
            let due = ChunkInfo {
                index: next as usize,
                total: info.total,
                message_len: info.message_len,
            };
            let (after, piece) = queue.took_chunk(seq, due);
            let (end, outcome) = queue.gathered(seq, info, next, payload);
            match piece {
                Piece::Part(part) => (end, outcome) == after.gathered(
                    seq,
                    info,
                    next + 1,
                    payload + part,
                ),
                Piece::Failed(e) => end == after && outcome == Outcome::Failed(e),
                Piece::Waiting => {
                    &&& outcome == Outcome::Waiting
                    &&& end.slots == queue.slots
                    &&& end.received() == queue.gathered(seq, info, next, payload)
                },
            }
        }),
{
    let due = ChunkInfo { index: next as usize, ..info };
    let (after, piece) = queue.took_chunk(seq, due);
    if piece is Waiting {
        let end = queue.gathered(seq, info, next, payload).0;
        assert(end.settled() == queue);
    }
}

/// A message whose first slot is not free when it is written is refused, though it has its number.
pub proof fn law_slot_in_the_way_is_told(queue: QueueView, payload: Seq<u8>)
    requires
        !queue.closed,
        queue.config.problem() is None,
        planned(queue.config, payload.len()) matches Ok(plan) && queue.config.capacity - queue.len
            >= plan.needed_slots,
        queue.slots[queue.head].state != SlotState::Free,
    ensures
        queue.sent(payload).1 == Err::<(), DslineError>(
            DslineError::Channel(ChannelError::BufferFull),
        ),
        queue.sent(payload).0 == (QueueView { next_seq: following(queue.next_seq), ..queue }),
{
    lemma_message_frames(queue.config, queue.next_seq, payload);
}

impl<S: FixedSlotStorage> PersistentSlotRegion<S> {
    /// A frame is written to a slot with a header exactly where the slot is there and free and has
    /// room for it; then it is what the slot holds. A slot that turns out too small is left as
    /// being written. All other slots stay.
    pub proof fn law_frame_is_written_to_a_free_slot(
        &self,
        index: int,
        other: int,
        seq: u64,
        frame: Seq<u8>,
    )
        requires
            self.valid(),
            self.shape().stable,
            0 <= index,
            frame.len() < 0x1_0000_0000,
        ensures
            ({
                let (after, r) = self.written(index, seq, frame);
                let room = self.shape().frame_room;
                if index >= self.shape().capacity {
                    &&& after == self.slots()
                    &&& r == Err::<(), DslineError>(
                        DslineError::Channel(
                            ChannelError::InvalidConfig("slot index out of range"),
                        ),
                    )
                } else if self.slots()[index].state != SlotState::Free {
                    &&& after == self.slots()
                    &&& r == Err::<(), DslineError>(DslineError::Channel(ChannelError::BufferFull))
                } else {
                    &&& 0 <= other < self.shape().capacity && other != index ==> after[other]
                        == self.slots()[other]
                    &&& after[index].seq == seq
                    &&& frame.len() > room ==> {
                        &&& after[index].state == SlotState::Writing
                        &&& r == Err::<(), DslineError>(
                            DslineError::Channel(
                                ChannelError::MessageTooLarge {
                                    len: frame.len() as usize,
                                    slot_size: room as usize,
                                },
                            ),
                        )
                    }
                    &&& frame.len() <= room ==> {
                        &&& r == Ok::<(), DslineError>(())
                        &&& ready_with(after[index], frame)
                    }
                }
            }),
    {
        self.law_region_shape();
        self.lemma_shape();
        lemma_small_mod(frame.len(), 0x1_0000_0000nat);
    }

    /// A slot with a header is released exactly from the state that is asked for; then it is free
    /// and cleared. All other slots stay.
    pub proof fn law_slot_is_released_from_its_state(
        &self,
        index: int,
        other: int,
        state: SlotState,
    )
        requires
            self.valid(),
            self.shape().stable,
            0 <= index,
            state == SlotState::Pinned || state == SlotState::Committed,
        ensures
            ({
                let (after, r) = self.released(index, state);
                if index >= self.shape().capacity {
                    &&& after == self.slots()
                    &&& r == Err::<(), DslineError>(
                        DslineError::Channel(
                            ChannelError::InvalidConfig("slot index out of range"),
                        ),
                    )
                } else if self.slots()[index].state != state {
                    &&& after == self.slots()
                    &&& r == Err::<(), DslineError>(
                        DslineError::Channel(
                            ChannelError::InvalidConfig(
                                if state == SlotState::Pinned {
                                    "slot is not pinned"
                                } else {
                                    "slot is not committed"
                                },
                            ),
                        ),
                    )
                } else {
                    &&& r == Ok::<(), DslineError>(())
                    &&& 0 <= other < self.shape().capacity && other != index ==> after[other]
                        == self.slots()[other]
                    &&& after[index].state == SlotState::Free
                    &&& after[index].seq == 0
                    &&& after[index].len == 0
                    &&& forall|i: int|
                        0 <= i < after[index].body.len() ==> #[trigger] after[index].body[i] == 0
                    &&& after[index].body.len() == self.slots()[index].body.len()
                }
            }),
    {
        self.lemma_shape();
    }
}

/// What dropping makes of a slot that can be read: bytes that are no frame, labels that are none,
/// and a later chunk where a message should start are told, and nothing changes; otherwise as many
/// slots are given up as the message says it has.
pub proof fn law_dropping_goes_by_the_slot(queue: QueueView, bytes: Seq<u8>)
    requires
        can_be_read(queue),
        ready_with(queue.slots[queue.tail], bytes),
    ensures
        match parsed_frame(bytes) {
            Err(e) => queue.dropped() == (
                queue,
                Err::<(), DslineError>(DslineError::Protocol(e)),
            ),
            Ok(frame) => if frame.header.flags % 2 == 0 {
                queue.dropped() == queue.discarded(1)
            } else {
                match labelled(frame.metadata) {
                    Err(e) => queue.dropped() == (
                        queue,
                        Err::<(), DslineError>(DslineError::Channel(e)),
                    ),
                    Ok(info) => queue.dropped() == if info.index != 0 {
                        (
                            queue,
                            Err::<(), DslineError>(
                                DslineError::Channel(ChannelError::CorruptedMessage),
                            ),
                        )
                    } else {
                        queue.discarded(info.total as nat)
                    },
                }
            },
        },
{
    lemma_ready(queue.slots[queue.tail], bytes);
    match parsed_frame(bytes) {
        Err(_) => {},
        Ok(frame) => {
            let flags = frame.header.flags;
            assert((flags & 1 != 0) == (flags % 2 != 0)) by (bit_vector);
        },
    }
}

/// Giving up slots goes from one to the next as long as they hold frames that nobody reads; then
/// the message counts as done with.
pub proof fn law_slots_are_given_up_one_by_one(queue: QueueView, count: nat)
    requires
        can_be_read(queue),
    ensures
        queue.discarded(0).1 == Ok::<(), DslineError>(()),
        queue.discarded(0).0 == (QueueView {
            expected_seq: following(queue.expected_seq),
            ..queue
        }),
        count > 0 && queue.slots[queue.tail].state != SlotState::Committed ==> queue.discarded(
            count,
        ) == (
            queue,
            Err::<(), DslineError>(
                DslineError::Channel(ChannelError::InvalidConfig("slot is not committed")),
            ),
        ),
        count > 0 && queue.slots[queue.tail].state == SlotState::Committed ==> {
            &&& gave_up_slot(queue, queue.advanced())
            &&& queue.advanced().expected_seq == queue.expected_seq
            &&& queue.advanced().last_seq == queue.last_seq
            &&& queue.discarded(count) == queue.advanced().discarded((count - 1) as nat)
        },
{
}

/// Room is made by dropping the oldest messages one by one, until there is enough or one cannot be
/// dropped, which is then the answer.
pub proof fn law_room_is_made_one_message_at_a_time(queue: QueueView, needed: nat)
    ensures
        queue.config.capacity - queue.len >= needed ==> queue.cleared(needed) == (
            queue,
            Ok::<(), DslineError>(()),
        ),
        queue.config.capacity - queue.len < needed && queue.dropped().1 is Err ==> queue.cleared(
            needed,
        ) == queue.dropped(),
        queue.config.capacity - queue.len < needed && queue.dropped().1 is Ok && 0
            <= queue.dropped().0.len < queue.len ==> queue.cleared(needed)
            == queue.dropped().0.cleared(needed),
{
}

/// Frames are written one after the other, each to the slot at the head if it is free; then the
/// slot holds the frame and its number, and the next slot is the head. A slot that is not free ends
/// that, and what has been written stays.
pub proof fn law_frames_are_written_one_by_one(
    queue: QueueView,
    seq: u64,
    frames: Seq<FrameView>,
)
    requires
        queue.slots.len() == queue.config.capacity,
        0 <= queue.head < queue.config.capacity,
        frames.len() > 0,
        frame_bytes(frames[0]).len() <= queue.slots[queue.head].body.len(),
        frame_bytes(frames[0]).len() < queue.len_range,
    ensures
        queue.stored(seq, seq![]) == (queue, Ok::<(), DslineError>(())),
        queue.slots[queue.head].state != SlotState::Free ==> queue.stored(seq, frames) == (
            queue,
            Err::<(), DslineError>(DslineError::Channel(ChannelError::BufferFull)),
        ),
        queue.slots[queue.head].state == SlotState::Free ==> {
            let after = queue.with_frame(seq, frame_bytes(frames[0]));
            &&& queue.stored(seq, frames) == after.stored(seq, frames.skip(1))
            &&& ready_with(after.slots[queue.head], frame_bytes(frames[0]))
            &&& after.slots[queue.head].seq == seq
            &&& after.slots.len() == queue.slots.len()
            &&& forall|i: int|
                0 <= i < queue.slots.len() && i != queue.head ==> #[trigger] after.slots[i]
                    == queue.slots[i]
            &&& after.head == if queue.head + 1 == queue.config.capacity {
                0
            } else {
                queue.head + 1
            }
            &&& after.len == queue.len + 1
            &&& after == (QueueView {
                slots: after.slots,
                head: after.head,
                len: after.len,
                ..queue
            })
        },
{
    lemma_small_mod(frame_bytes(frames[0]).len(), queue.len_range);
}

/// Where there is room, sending gives the message the next number and writes its frames. Where
/// there is none, it fails, discards the message, or drops the oldest ones first, as configured.
pub proof fn law_sending_goes_by_the_room(queue: QueueView, payload: Seq<u8>, needed: nat)
    requires
        !queue.closed,
        planned(queue.config, payload.len()) is Ok,
        needed == planned(queue.config, payload.len())->Ok_0.needed_slots,
    ensures
        ({
            let seq = queue.next_seq;
            let room = queue.config.capacity - queue.len >= needed;
            let numbered = QueueView { next_seq: following(seq), ..queue };
            if room {
                queue.sent(payload) == numbered.stored(
                    seq,
                    message_frames(queue.config, seq, payload),
                )
            } else {
                match queue.config.backpressure {
                    Backpressure::Raise | Backpressure::Block => queue.sent(payload) == (
                        queue,
                        Err::<(), DslineError>(DslineError::Channel(ChannelError::BufferFull)),
                    ),
                    Backpressure::DropNewest => queue.sent(payload) == (
                        queue,
                        Ok::<(), DslineError>(()),
                    ),
                    Backpressure::DropOldest => match queue.cleared(needed) {
                        (left, Err(e)) => queue.sent(payload) == (left, Err::<(), DslineError>(e)),
                        (left, Ok(())) => queue.sent(payload) == (QueueView {
                            next_seq: following(left.next_seq),
                            ..left
                        }).stored(
                            left.next_seq,
                            message_frames(left.config, left.next_seq, payload),
                        ),
                    },
                }
            }
        }),
{
}

} // verus!
