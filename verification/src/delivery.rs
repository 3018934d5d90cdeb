//! What a channel promises: the messages that were sent come out unchanged and in order.

use crate::chunk::{
    carried, chunk_count, chunk_frame, chunk_part, chunk_problem, chunk_room, lemma_chunk_count,
    lemma_chunk_frame_len, lemma_chunk_parts_join, lemma_chunk_round_trip, lemma_flags_of_chunk,
    lemma_plan_fits, message_frames, planned, ChunkInfo,
};
use crate::error::{ChannelError, DslineError};
use crate::frame::{
    frame_bytes, lemma_frame_bytes_len, metadata_len, parsed_frame, FrameView, FRAME_HEADER_LEN,
};
use crate::queue::{Outcome, Piece, QueueView};
use crate::slot::{overwritten, SlotState, SlotView};
use crate::spsc::{
    is_intact, lemma_plain_round_trip, plain_frame, seq_after, SendEvent, SendStep, SpscConfig,
};
use vstd::arithmetic::div_mod::lemma_small_mod;
use vstd::prelude::*;

verus! {

/// A message as it was sent.
#[verifier::ext_equal]
pub struct Message {
    pub seq: u64,
    pub payload: Seq<u8>,
}

/// What one slot in use is to hold.
pub struct Cell {
    pub seq: u64,
    pub frame: FrameView,
}

/// What the slots of a message are to hold.
pub open spec fn message_cells(config: SpscConfig, message: Message) -> Seq<Cell> {
    frame_cells(message.seq, message_frames(config, message.seq, message.payload))
}

/// What slots are to hold that were written with the given frames.
pub open spec fn frame_cells(seq: u64, frames: Seq<FrameView>) -> Seq<Cell> {
    frames.map_values(|frame: FrameView| Cell { seq, frame })
}

/// What the slots of a list of messages are to hold.
pub open spec fn cells(config: SpscConfig, messages: Seq<Message>) -> Seq<Cell>
    decreases messages.len(),
{
    if messages.len() == 0 {
        seq![]
    } else {
        message_cells(config, messages[0]) + cells(config, messages.skip(1))
    }
}

/// The sequence number `n` after another.
pub open spec fn seq_plus(seq: u64, n: int) -> u64 {
    ((seq + n) % 0x1_0000_0000_0000_0000) as u64
}

/// Whether a slot holds what it is to hold.
pub open spec fn holds_cell(slot: SlotView, cell: Cell) -> bool {
    &&& slot.state == SlotState::Committed
    &&& slot.seq == cell.seq
    &&& slot.committed_frame() == Ok::<Seq<u8>, DslineError>(frame_bytes(cell.frame))
}

impl QueueView {
    /// The slot that is `k` places after the tail.
    pub open spec fn place(self, k: int) -> int {
        if self.tail + k < self.config.capacity {
            self.tail + k
        } else {
            self.tail + k - self.config.capacity
        }
    }

    /// Whether there are as many slots as configured, with room for any frame.
    pub open spec fn roomy(self) -> bool {
        &&& self.config.problem() is None
        &&& self.slots.len() == self.config.capacity
        &&& self.config.slot_size + FRAME_HEADER_LEN < self.len_range
        &&& 0 <= self.tail < self.config.capacity
        &&& forall|i: int|
            0 <= i < self.slots.len() ==> #[trigger] self.slots[i].body.len()
                >= self.config.slot_size + FRAME_HEADER_LEN
    }

    /// Whether the slots in use hold the given cells and all others are free.
    pub open spec fn lays_out(self, cells: Seq<Cell>) -> bool {
        &&& self.roomy()
        &&& self.len == cells.len() <= self.config.capacity
        &&& self.head == self.place(self.len)
        &&& forall|k: int|
            0 <= k < cells.len() ==> #[trigger] holds_cell(self.slots[self.place(k)], cells[k])
        &&& forall|k: int|
            cells.len() <= k < self.config.capacity ==> #[trigger] self.slots[self.place(
                k,
            )].state == SlotState::Free
    }

    /// Whether the channel holds these messages, oldest first, and expects to hand them out.
    pub open spec fn holds(self, messages: Seq<Message>) -> bool {
        &&& self.lays_out(cells(self.config, messages))
        &&& self.partial is None
        &&& self.next_seq == seq_plus(self.expected_seq, messages.len() as int)
        &&& forall|i: int|
            0 <= i < messages.len() ==> (#[trigger] messages[i]).seq == seq_plus(
                self.expected_seq,
                i,
            )
        &&& forall|i: int|
            0 <= i < messages.len() ==> planned(
                self.config,
                (#[trigger] messages[i]).payload.len(),
            ) is Ok
    }

    /// Whether another state differs only in what the slots hold and where the queue lies.
    pub open spec fn same_counters(self, other: QueueView) -> bool {
        &&& other.config == self.config
        &&& other.len_range == self.len_range
        &&& other.waits == self.waits
        &&& other.next_seq == self.next_seq
        &&& other.expected_seq == self.expected_seq
        &&& other.last_seq == self.last_seq
        &&& other.closed == self.closed
        &&& other.partial == self.partial
    }
}

/// Pinning a slot before it is released makes no difference.
proof fn lemma_pin_then_advance(queue: QueueView)
    requires
        0 <= queue.tail < queue.slots.len(),
    ensures
        queue.pinned().advanced() == queue.advanced(),
{
    assert(queue.pinned().advanced().slots =~= queue.advanced().slots);
}

/// Only the slots, the positions and the configuration decide what is laid out.
pub proof fn lemma_same_layout(queue: QueueView, other: QueueView, all: Seq<Cell>)
    requires
        queue.lays_out(all),
        other.slots == queue.slots,
        other.config == queue.config,
        other.len_range == queue.len_range,
        other.head == queue.head,
        other.tail == queue.tail,
        other.len == queue.len,
    ensures
        other.lays_out(all),
{
    assert forall|k: int| 0 <= k < all.len() implies #[trigger] holds_cell(
        other.slots[other.place(k)],
        all[k],
    ) by {
        assert(holds_cell(queue.slots[queue.place(k)], all[k]));
    }
    assert forall|k: int| all.len() <= k < other.config.capacity implies (
    #[trigger] other.slots[other.place(k)]).state == SlotState::Free by {
        assert(queue.slots[queue.place(k)].state == SlotState::Free);
    }
}

/// Releasing the slot at the tail leaves the cells after the first.
proof fn lemma_advance(queue: QueueView, all: Seq<Cell>)
    requires
        queue.lays_out(all),
        all.len() > 0,
    ensures
        queue.advanced().lays_out(all.skip(1)),
        queue.same_counters(queue.advanced()),
        queue.advanced().len == queue.len - 1,
{
    let after = queue.advanced();
    let rest = all.skip(1);
    assert forall|k: int| 0 <= k < rest.len() implies #[trigger] holds_cell(
        after.slots[after.place(k)],
        rest[k],
    ) by {
        assert(after.place(k) == queue.place(k + 1));
        assert(holds_cell(queue.slots[queue.place(k + 1)], all[k + 1]));
    }
    assert forall|k: int| rest.len() <= k < after.config.capacity implies (
    #[trigger] after.slots[after.place(k)]).state == SlotState::Free by {
        if k + 1 < queue.config.capacity {
            assert(after.place(k) == queue.place(k + 1));
            assert(queue.slots[queue.place(k + 1)].state == SlotState::Free);
        } else {
            assert(after.place(k) == queue.tail);
        }
    }
    assert forall|i: int| 0 <= i < after.slots.len() implies #[trigger] after.slots[i].body.len()
        >= after.config.slot_size + FRAME_HEADER_LEN by {
        assert(queue.slots[i].body.len() >= queue.config.slot_size + FRAME_HEADER_LEN);
    }
}

/// Writing a frame at the head adds a cell behind the others.
proof fn lemma_write(queue: QueueView, all: Seq<Cell>, cell: Cell)
    requires
        queue.lays_out(all),
        all.len() < queue.config.capacity,
        frame_bytes(cell.frame).len() <= queue.config.slot_size + FRAME_HEADER_LEN,
    ensures
        queue.slots[queue.head].state == SlotState::Free,
        queue.with_frame(cell.seq, frame_bytes(cell.frame)).lays_out(all.push(cell)),
        queue.same_counters(queue.with_frame(cell.seq, frame_bytes(cell.frame))),
{
    let bytes = frame_bytes(cell.frame);
    let after = queue.with_frame(cell.seq, bytes);
    let longer = all.push(cell);
    let slot = queue.slots[queue.head];
    assert(queue.slots[queue.place(queue.len)].state == SlotState::Free);
    assert(slot.body.len() >= queue.config.slot_size + FRAME_HEADER_LEN);
    lemma_small_mod(bytes.len(), queue.len_range);
    assert(overwritten(slot.body, bytes).take(bytes.len() as int) =~= bytes);
    assert forall|k: int| 0 <= k < longer.len() implies #[trigger] holds_cell(
        after.slots[after.place(k)],
        longer[k],
    ) by {
        if k < all.len() {
            assert(after.place(k) == queue.place(k));
            assert(holds_cell(queue.slots[queue.place(k)], all[k]));
        }
    }
    assert forall|k: int| longer.len() <= k < after.config.capacity implies (
    #[trigger] after.slots[after.place(k)]).state == SlotState::Free by {
        assert(after.place(k) == queue.place(k));
        assert(queue.slots[queue.place(k)].state == SlotState::Free);
    }
    assert forall|i: int| 0 <= i < after.slots.len() implies #[trigger] after.slots[i].body.len()
        >= after.config.slot_size + FRAME_HEADER_LEN by {
        assert(queue.slots[i].body.len() >= queue.config.slot_size + FRAME_HEADER_LEN);
    }
}

/// Writing frames at the head adds their cells behind the others.
proof fn lemma_store(queue: QueueView, all: Seq<Cell>, seq: u64, frames: Seq<FrameView>)
    requires
        queue.lays_out(all),
        all.len() + frames.len() <= queue.config.capacity,
        forall|i: int|
            0 <= i < frames.len() ==> #[trigger] frame_bytes(frames[i]).len()
                <= queue.config.slot_size + FRAME_HEADER_LEN,
    ensures
        queue.stored(seq, frames).1 == Ok::<(), DslineError>(()),
        queue.stored(seq, frames).0.lays_out(all + frame_cells(seq, frames)),
        queue.same_counters(queue.stored(seq, frames).0),
        queue.stored(seq, frames).0.tail == queue.tail,
    decreases frames.len(),
{
    if frames.len() == 0 {
        assert(all + frame_cells(seq, frames) =~= all);
    } else {
        let cell = Cell { seq, frame: frames[0] };
        let next = queue.with_frame(seq, frame_bytes(frames[0]));
        let rest = frames.skip(1);
        assert(frame_bytes(frames[0]).len() <= queue.config.slot_size + FRAME_HEADER_LEN);
        lemma_write(queue, all, cell);
        assert forall|i: int| 0 <= i < rest.len() implies #[trigger] frame_bytes(rest[i]).len()
            <= next.config.slot_size + FRAME_HEADER_LEN by {
            assert(rest[i] == frames[i + 1]);
        }
        lemma_store(next, all.push(cell), seq, rest);
        assert(all.push(cell) + frame_cells(seq, rest) =~= all + frame_cells(seq, frames));
    }
}

/// A slot that holds its cell gives the frame of the cell.
proof fn lemma_first_frame(queue: QueueView, all: Seq<Cell>)
    requires
        queue.lays_out(all),
        all.len() > 0,
        parsed_frame(frame_bytes(all[0].frame)) == Ok::<
            FrameView,
            crate::error::ProtocolError,
        >(all[0].frame),
    ensures
        queue.obstacle() is None,
        queue.oldest().seq == all[0].seq,
        queue.oldest().state == SlotState::Committed,
        queue.oldest_frame() == Ok::<FrameView, DslineError>(all[0].frame),
{
    assert(holds_cell(queue.slots[queue.place(0)], all[0]));
    assert(queue.place(0) == queue.tail);
}

/// Whether a payload is split into chunks by a channel that accepts it.
pub open spec fn is_split(config: SpscConfig, payload: Seq<u8>) -> bool {
    planned(config, payload.len()) is Ok && payload.len() > config.slot_size
}

/// The labels of the first chunk of a payload.
pub open spec fn first_label(config: SpscConfig, payload: Seq<u8>) -> ChunkInfo {
    ChunkInfo {
        index: 0,
        total: chunk_count(payload.len(), chunk_room(config)) as usize,
        message_len: payload.len() as usize,
    }
}

/// What is known of the frames of a message: each is read back and fits in a slot.
pub proof fn lemma_message_frames(config: SpscConfig, seq: u64, payload: Seq<u8>)
    requires
        config.problem() is None,
        planned(config, payload.len()) is Ok,
    ensures
        ({
            let frames = message_frames(config, seq, payload);
            &&& frames.len() == planned(config, payload.len())->Ok_0.needed_slots
            &&& 1 <= frames.len() <= config.capacity
            &&& forall|i: int|
                0 <= i < frames.len() ==> #[trigger] frame_bytes(frames[i]).len()
                    <= config.slot_size + FRAME_HEADER_LEN
            &&& forall|i: int|
                0 <= i < frames.len() ==> parsed_frame(frame_bytes(#[trigger] frames[i])) == Ok::<
                    FrameView,
                    crate::error::ProtocolError,
                >(frames[i])
            &&& forall|i: int|
                0 <= i < frames.len() ==> (#[trigger] frames[i]).header.seq == seq && is_intact(
                    frames[i],
                )
        }),
{
    let frames = message_frames(config, seq, payload);
    lemma_plan_fits(config, payload.len());
    if payload.len() <= config.slot_size {
        lemma_plain_round_trip(seq, payload);
        lemma_frame_bytes_len(plain_frame(seq, payload));
        assert(metadata_len(seq![]) == 0);
    } else {
        let room = chunk_room(config);
        lemma_chunk_count(payload.len(), room);
        assert forall|i: int| 0 <= i < frames.len() implies #[trigger] frame_bytes(frames[i]).len()
            <= config.slot_size + FRAME_HEADER_LEN && parsed_frame(frame_bytes(frames[i])) == Ok::<
            FrameView,
            crate::error::ProtocolError,
        >(frames[i]) && frames[i].header.seq == seq && is_intact(frames[i]) by {
            lemma_chunk_round_trip(seq, payload, room, i);
            lemma_chunk_frame_len(seq, payload, room, i);
        }
        assert forall|i: int| 0 <= i < frames.len() implies parsed_frame(
            frame_bytes(#[trigger] frames[i]),
        ) == Ok::<FrameView, crate::error::ProtocolError>(frames[i]) && frames[i].header.seq == seq
            && is_intact(frames[i]) by {
            assert(frame_bytes(frames[i]).len() <= config.slot_size + FRAME_HEADER_LEN);
        }
    }
}

/// The chunks that are left of a message, followed by other cells, are put together.
proof fn lemma_gather(queue: QueueView, seq: u64, payload: Seq<u8>, next: int, rest: Seq<Cell>)
    requires
        is_split(queue.config, payload),
        payload.len() <= usize::MAX,
        1 <= next <= chunk_count(payload.len(), chunk_room(queue.config)),
        queue.lays_out(
            message_cells(queue.config, Message { seq, payload }).skip(next) + rest,
        ),
    ensures
        ({
            let (after, outcome) = queue.gathered(
                seq,
                first_label(queue.config, payload),
                next,
                carried(payload, chunk_room(queue.config), next),
            );
            &&& outcome == Outcome::Message { seq, payload }
            &&& after.lays_out(rest)
            &&& queue.delivered(seq).same_counters(after)
        }),
    decreases chunk_count(payload.len(), chunk_room(queue.config)) - next,
{
    let config = queue.config;
    let room = chunk_room(config);
    let total = chunk_count(payload.len(), room) as int;
    let info = first_label(config, payload);
    let all = message_cells(config, Message { seq, payload });
    let so_far = carried(payload, room, next);
    lemma_plan_fits(config, payload.len());
    lemma_chunk_count(payload.len(), room);
    if next == total {
        lemma_chunk_parts_join(payload, room, total - 1);
        assert(all.skip(next) + rest =~= rest);
        lemma_same_layout(queue, queue.delivered(seq), rest);
    } else {
        let left = all.skip(next) + rest;
        let frame = chunk_frame(seq, payload, room, next);
        assert(left[0] == Cell { seq, frame });
        lemma_chunk_round_trip(seq, payload, room, next);
        lemma_first_frame(queue, left);
        lemma_advance(queue, left);
        lemma_pin_then_advance(queue);
        assert(left.skip(1) =~= all.skip(next + 1) + rest);
        let due = ChunkInfo { index: next as usize, ..info };
        assert(chunk_problem(frame, seq, due) is None);
        assert(queue.took_chunk(seq, due) == (queue.advanced(), Piece::Part(frame.payload)));
        lemma_chunk_parts_join(payload, room, next);
        lemma_gather(queue.advanced(), seq, payload, next + 1, rest);
    }
}

/// A message at the tail, followed by other cells, is received.
proof fn lemma_receive(queue: QueueView, message: Message, rest: Seq<Cell>)
    requires
        queue.lays_out(message_cells(queue.config, message) + rest),
        planned(queue.config, message.payload.len()) is Ok,
        message.payload.len() <= usize::MAX,
        message.seq == queue.expected_seq,
        queue.partial is None,
    ensures
        ({
            let (after, outcome) = queue.received();
            &&& outcome == Outcome::Message { seq: message.seq, payload: message.payload }
            &&& after.lays_out(rest)
            &&& queue.delivered(message.seq).same_counters(after)
        }),
{
    let config = queue.config;
    let seq = message.seq;
    let payload = message.payload;
    let frames = message_frames(config, seq, payload);
    let all = message_cells(config, message) + rest;
    lemma_message_frames(config, seq, payload);
    assert(all[0] == Cell { seq, frame: frames[0] });
    assert(parsed_frame(frame_bytes(frames[0])) == Ok::<FrameView, crate::error::ProtocolError>(
        frames[0],
    ));
    assert(frames[0].header.seq == seq);
    lemma_first_frame(queue, all);
    lemma_advance(queue, all);
    lemma_pin_then_advance(queue);
    assert(queue.received() == queue.pinned().opened(frames[0]));
    if payload.len() <= config.slot_size {
        lemma_flags_of_chunk(0, 0);
        assert(all.skip(1) =~= rest);
        lemma_same_layout(queue.advanced(), queue.advanced().delivered(seq), rest);
    } else {
        let room = chunk_room(config);
        lemma_chunk_count(payload.len(), room);
        lemma_chunk_round_trip(seq, payload, room, 0);
        lemma_chunk_parts_join(payload, room, 0);
        assert(carried(payload, room, 0) + chunk_part(payload, room, 0) =~= frames[0].payload);
        assert(all.skip(1) =~= message_cells(config, message).skip(1) + rest);
        lemma_gather(queue.advanced(), seq, payload, 1, rest);
        assert(queue.pinned().opened(frames[0]) == queue.advanced().gathered(
            seq,
            first_label(config, payload),
            1,
            frames[0].payload,
        ));
    }
}

/// Discarding as many slots as a message takes leaves what follows it.
proof fn lemma_discard(queue: QueueView, front: Seq<Cell>, rest: Seq<Cell>)
    requires
        queue.lays_out(front + rest),
    ensures
        ({
            let (after, r) = queue.discarded(front.len());
            &&& r is Ok
            &&& after.lays_out(rest)
            &&& queue.counted().same_counters(after)
        }),
    decreases front.len(),
{
    if front.len() == 0 {
        assert(front + rest =~= rest);
        lemma_same_layout(queue, queue.counted(), rest);
    } else {
        let all = front + rest;
        assert(holds_cell(queue.slots[queue.place(0)], all[0]));
        lemma_advance(queue, all);
        assert(all.skip(1) =~= front.skip(1) + rest);
        lemma_discard(queue.advanced(), front.skip(1), rest);
    }
}

/// The cells of one message more stand behind the others.
proof fn lemma_cells_push(config: SpscConfig, messages: Seq<Message>, message: Message)
    ensures
        cells(config, messages.push(message)) == cells(config, messages) + message_cells(
            config,
            message,
        ),
    decreases messages.len(),
{
    let longer = messages.push(message);
    if messages.len() == 0 {
        assert(longer[0] == message);
        assert(cells(config, longer.skip(1)) =~= seq![]);
        assert(cells(config, longer) =~= cells(config, messages) + message_cells(config, message));
    } else {
        assert(longer.skip(1) =~= messages.skip(1).push(message));
        lemma_cells_push(config, messages.skip(1), message);
        assert(cells(config, longer) =~= cells(config, messages) + message_cells(config, message));
    }
}

/// A message leaves at the front of what is held: the rest is held by the state that follows.
proof fn lemma_holds_rest(queue: QueueView, messages: Seq<Message>, after: QueueView)
    requires
        queue.holds(messages),
        messages.len() > 0,
        after.lays_out(cells(queue.config, messages.skip(1))),
        after.config == queue.config,
        after.partial is None,
        after.next_seq == queue.next_seq,
        after.expected_seq == seq_after(queue.expected_seq),
    ensures
        after.holds(messages.skip(1)),
{
    let rest = messages.skip(1);
    assert forall|i: int| 0 <= i < rest.len() implies (#[trigger] rest[i]).seq == seq_plus(
        after.expected_seq,
        i,
    ) by {
        assert(rest[i] == messages[i + 1]);
    }
    assert forall|i: int| 0 <= i < rest.len() implies planned(
        after.config,
        (#[trigger] rest[i]).payload.len(),
    ) is Ok by {
        assert(rest[i] == messages[i + 1]);
    }
}

/// The oldest message held comes out with its sequence number and its payload unchanged, whether
/// it was split or not, and the others stay, in order.
pub proof fn law_recv_is_first_in_first_out(queue: QueueView, messages: Seq<Message>)
    requires
        queue.holds(messages),
        messages.len() > 0,
    ensures
        queue.received().1 == (Outcome::Message {
            seq: messages[0].seq,
            payload: messages[0].payload,
        }),
        queue.received().0.holds(messages.skip(1)),
        queue.delivered(messages[0].seq).same_counters(queue.received().0),
{
    lemma_receive(queue, messages[0], cells(queue.config, messages.skip(1)));
    lemma_holds_rest(queue, messages, queue.received().0);
}

/// Nothing comes out of an empty channel, and it says whether more can come.
pub proof fn law_recv_of_nothing(queue: QueueView)
    requires
        queue.holds(seq![]),
    ensures
        queue.received().0 == queue,
        queue.received().1 == Outcome::Failed(
            DslineError::Channel(
                if queue.closed {
                    ChannelError::Closed
                } else {
                    ChannelError::BufferEmpty
                },
            ),
        ),
{
}

/// How many slots a list of messages takes.
pub open spec fn slots_taken(config: SpscConfig, messages: Seq<Message>) -> nat {
    cells(config, messages).len()
}

/// How many slots a payload takes.
pub open spec fn slots_needed(config: SpscConfig, payload: Seq<u8>) -> nat {
    planned(config, payload.len())->Ok_0.needed_slots as nat
}

/// A message that the channel can take is accepted while there is room for all of it. It gets
/// the next sequence number and stands behind all others.
pub proof fn law_send_appends(queue: QueueView, messages: Seq<Message>, payload: Seq<u8>)
    requires
        queue.holds(messages),
        !queue.closed,
        planned(queue.config, payload.len()) is Ok,
        slots_taken(queue.config, messages) + slots_needed(queue.config, payload)
            <= queue.config.capacity,
    ensures
        queue.sent(payload).1 == Ok::<(), DslineError>(()),
        queue.sent(payload).0.holds(messages.push(Message { seq: queue.next_seq, payload })),
        queue.numbered().same_counters(queue.sent(payload).0),
        queue.sent(payload).0.tail == queue.tail,
{
    let seq = queue.next_seq;
    let message = Message { seq, payload };
    let frames = message_frames(queue.config, seq, payload);
    let all = cells(queue.config, messages);
    let numbered = queue.numbered();
    lemma_message_frames(queue.config, seq, payload);
    lemma_same_layout(queue, numbered, all);
    assert forall|i: int| 0 <= i < frames.len() implies #[trigger] frame_bytes(frames[i]).len()
        <= numbered.config.slot_size + FRAME_HEADER_LEN by {
        assert(frame_bytes(frames[i]).len() <= queue.config.slot_size + FRAME_HEADER_LEN);
    }
    lemma_store(numbered, all, seq, frames);
    lemma_cells_push(queue.config, messages, message);
    let after = queue.sent(payload).0;
    let longer = messages.push(message);
    assert(after == numbered.stored(seq, frames).0);
    assert forall|i: int| 0 <= i < longer.len() implies (#[trigger] longer[i]).seq == seq_plus(
        after.expected_seq,
        i,
    ) by {
        if i < messages.len() {
            assert(longer[i] == messages[i]);
        }
    }
    assert forall|i: int| 0 <= i < longer.len() implies planned(
        after.config,
        (#[trigger] longer[i]).payload.len(),
    ) is Ok by {
        if i < messages.len() {
            assert(longer[i] == messages[i]);
        }
    }
}

/// A message that does not fit now is refused under the policies to fail and to wait, and is
/// discarded under the policy for it. Nothing else changes.
pub proof fn law_full_channel_keeps_its_messages(
    queue: QueueView,
    messages: Seq<Message>,
    payload: Seq<u8>,
)
    requires
        queue.holds(messages),
        !queue.closed,
        planned(queue.config, payload.len()) is Ok,
        slots_taken(queue.config, messages) + slots_needed(queue.config, payload)
            > queue.config.capacity,
    ensures
        queue.config.backpressure is Raise || queue.config.backpressure is Block ==> queue.sent(
            payload,
        ) == (queue, Err::<(), DslineError>(DslineError::Channel(ChannelError::BufferFull))),
        queue.config.backpressure is DropNewest ==> queue.sent(payload) == (
            queue,
            Ok::<(), DslineError>(()),
        ),
{
}

/// A message waits exactly where it would be refused for want of room, and waiting changes nothing.
/// A message that does not wait is dealt with as if there were no waiting.
pub proof fn law_waiting_is_for_want_of_room(
    queue: QueueView,
    payload: Seq<u8>,
    event: SendEvent,
)
    requires
        event != SendEvent::TimedOut,
    ensures
        ({
            let (after, step) = queue.send_stepped(payload, event);
            &&& step is Wait ==> {
                &&& after == queue
                &&& queue.sent(payload) == (
                    queue,
                    Err::<(), DslineError>(DslineError::Channel(ChannelError::BufferFull)),
                )
            }
            &&& step matches SendStep::Done(r) ==> (after, r) == queue.sent(payload)
        }),
        queue.send_stepped(payload, SendEvent::TimedOut) == (
            queue,
            SendStep::Done(
                Err::<(), DslineError>(DslineError::Channel(ChannelError::BufferFull)),
            ),
        ),
{
}

/// Dropping takes the whole of the oldest message and nothing of the others.
pub proof fn law_drop_takes_one_whole_message(queue: QueueView, messages: Seq<Message>)
    requires
        queue.holds(messages),
        messages.len() > 0,
    ensures
        queue.dropped().1 is Ok,
        queue.dropped().0.holds(messages.skip(1)),
        queue.dropped().0.same_counters(
            QueueView { expected_seq: seq_after(queue.expected_seq), ..queue },
        ),
{
    let config = queue.config;
    let message = messages[0];
    let payload = message.payload;
    let front = message_cells(config, message);
    let rest = cells(config, messages.skip(1));
    let frames = message_frames(config, message.seq, payload);
    lemma_message_frames(config, message.seq, payload);
    assert((front + rest)[0] == Cell { seq: message.seq, frame: frames[0] });
    assert(parsed_frame(frame_bytes(frames[0])) == Ok::<FrameView, crate::error::ProtocolError>(
        frames[0],
    ));
    lemma_first_frame(queue, front + rest);
    if payload.len() <= config.slot_size {
        lemma_flags_of_chunk(0, 0);
    } else {
        let room = chunk_room(config);
        lemma_chunk_count(payload.len(), room);
        lemma_chunk_round_trip(message.seq, payload, room, 0);
    }
    assert(queue.oldest_span() == Ok::<usize, DslineError>(frames.len() as usize));
    lemma_discard(queue, front, rest);
    lemma_holds_rest(queue, messages, queue.dropped().0);
}

/// How many of the oldest messages have to go to free the given number of slots.
pub open spec fn drops_for(config: SpscConfig, messages: Seq<Message>, needed: nat) -> nat
    decreases messages.len(),
{
    if messages.len() == 0 || slots_taken(config, messages) + needed <= config.capacity {
        0
    } else {
        1 + drops_for(config, messages.skip(1), needed)
    }
}

/// Making room drops as many of the oldest messages as it takes, and no more.
proof fn lemma_clear(queue: QueueView, messages: Seq<Message>, needed: nat)
    requires
        queue.holds(messages),
        needed <= queue.config.capacity,
    ensures
        ({
            let (after, r) = queue.cleared(needed);
            let count = drops_for(queue.config, messages, needed);
            &&& r is Ok
            &&& count <= messages.len()
            &&& after.holds(messages.skip(count as int))
            &&& after.has_room(needed)
            &&& (QueueView {
                expected_seq: seq_plus(queue.expected_seq, count as int),
                ..queue
            }).same_counters(after)
        }),
    decreases messages.len(),
{
    if queue.has_room(needed) {
        assert(messages.skip(0) =~= messages);
    } else {
        assert(messages.len() > 0);
        law_drop_takes_one_whole_message(queue, messages);
        let next = queue.dropped().0;
        assert(next.len < queue.len) by {
            lemma_message_frames(queue.config, messages[0].seq, messages[0].payload);
        }
        lemma_clear(next, messages.skip(1), needed);
        let count = drops_for(queue.config, messages.skip(1), needed);
        assert(messages.skip(1).skip(count as int) =~= messages.skip((1 + count) as int));
    }
}

/// Under the policy to discard the oldest messages, a message that the channel can take is always
/// accepted. As many of the oldest messages as it takes go, whole, and no more; the sequence
/// number of the next message received tells how many.
pub proof fn law_drop_oldest_makes_room(queue: QueueView, messages: Seq<Message>, payload: Seq<u8>)
    requires
        queue.holds(messages),
        !queue.closed,
        queue.config.backpressure is DropOldest,
        planned(queue.config, payload.len()) is Ok,
    ensures
        ({
            let count = drops_for(queue.config, messages, slots_needed(queue.config, payload));
            &&& queue.sent(payload).1 == Ok::<(), DslineError>(())
            &&& queue.sent(payload).0.holds(
                messages.skip(count as int).push(Message { seq: queue.next_seq, payload }),
            )
            &&& (QueueView {
                expected_seq: seq_plus(queue.expected_seq, count as int),
                ..queue.numbered()
            }).same_counters(queue.sent(payload).0)
        }),
{
    let needed = slots_needed(queue.config, payload);
    lemma_plan_fits(queue.config, payload.len());
    lemma_clear(queue, messages, needed);
    let count = drops_for(queue.config, messages, needed);
    let ready = queue.cleared(needed).0;
    law_send_appends(ready, messages.skip(count as int), payload);
    assert(queue.prepared(needed) == (ready, Ok::<bool, DslineError>(true)));
    assert(ready.prepared(needed) == (ready, Ok::<bool, DslineError>(true)));
}

/// A closed channel refuses every message and keeps what it holds; closing changes nothing else.
pub proof fn law_closed_channel_drains(queue: QueueView, messages: Seq<Message>, payload: Seq<u8>)
    requires
        queue.holds(messages),
    ensures
        ({
            let closed = QueueView { closed: true, ..queue };
            &&& closed.holds(messages)
            &&& closed.sent(payload) == (
                closed,
                Err::<(), DslineError>(DslineError::Channel(ChannelError::Closed)),
            )
            &&& messages.len() > 0 ==> closed.received().1 == (Outcome::Message {
                seq: messages[0].seq,
                payload: messages[0].payload,
            }) && closed.received().0.holds(messages.skip(1)) && closed.received().0.closed
            &&& messages.len() == 0 ==> closed.received() == (
                closed,
                Outcome::Failed(DslineError::Channel(ChannelError::Closed)),
            )
        }),
{
    let closed = QueueView { closed: true, ..queue };
    lemma_same_layout(queue, closed, cells(queue.config, messages));
    assert(closed.holds(messages));
    if messages.len() > 0 {
        law_recv_is_first_in_first_out(closed, messages);
    }
}

/// A message too large for the channel is refused, whatever the policy, and nothing changes.
pub proof fn law_oversized_message_is_refused(queue: QueueView, payload: Seq<u8>)
    requires
        !queue.closed,
        planned(queue.config, payload.len()) is Err,
    ensures
        queue.sent(payload) == (
            queue,
            Err::<(), DslineError>(
                DslineError::Channel(planned(queue.config, payload.len())->Err_0),
            ),
        ),
{
}

/// Whether bytes do not pass for the frame of a message: they are no frame, or the frame is not
/// intact or has another sequence number.
pub open spec fn is_damaged(bytes: Seq<u8>, seq: u64) -> bool {
    match parsed_frame(bytes) {
        Err(_) => true,
        Ok(frame) => !is_intact(frame) || frame.header.seq != seq,
    }
}

/// A damaged message is reported and costs only itself: where the bytes of an unsplit message have
/// become something else, receiving fails, its slot is released, and the messages behind it stay,
/// in order.
pub proof fn law_damaged_message_costs_only_itself(
    queue: QueueView,
    messages: Seq<Message>,
    bytes: Seq<u8>,
)
    requires
        queue.holds(messages),
        messages.len() > 0,
        messages[0].payload.len() <= queue.config.slot_size,
        bytes.len() == frame_bytes(plain_frame(messages[0].seq, messages[0].payload)).len(),
        is_damaged(bytes, messages[0].seq),
    ensures
        queue.rewritten(bytes).received().1 is Failed,
        queue.rewritten(bytes).received().0.holds(messages.skip(1)),
        queue.rewritten(bytes).received().0.last_seq == queue.last_seq,
{
    let seq = messages[0].seq;
    let payload = messages[0].payload;
    let rest = cells(queue.config, messages.skip(1));
    let all = cells(queue.config, messages);
    let damaged = queue.rewritten(bytes);
    let frames = message_frames(queue.config, seq, payload);
    lemma_message_frames(queue.config, seq, payload);
    assert(all[0] == Cell { seq, frame: frames[0] });
    assert(parsed_frame(frame_bytes(frames[0])) == Ok::<FrameView, crate::error::ProtocolError>(
        frames[0],
    ));
    lemma_first_frame(queue, all);
    assert(holds_cell(queue.slots[queue.place(0)], all[0]));
    assert(queue.oldest().body.len() >= bytes.len());
    assert(damaged.oldest().len == bytes.len());
    assert(overwritten(queue.oldest().body, bytes).take(bytes.len() as int) =~= bytes);
    assert(damaged.oldest().committed_frame() == Ok::<Seq<u8>, DslineError>(bytes));
    lemma_advance(queue, all);
    assert(all.skip(1) =~= rest);
    let after = damaged.pinned().advanced().counted();
    assert(after.slots =~= queue.advanced().slots);
    lemma_same_layout(queue.advanced(), after, rest);
    lemma_holds_rest(queue, messages, after);
}

} // verus!
