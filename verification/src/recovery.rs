//! Finding a channel's messages again from what its slots hold.

use crate::chunk::{
    chunk_room, lemma_chunk_round_trip, lemma_flags_of_chunk, message_frames, planned, seq_precedes,
};
use crate::delivery::{
    cells, drops_for, holds_cell, law_drop_oldest_makes_room, law_full_channel_keeps_its_messages,
    law_recv_is_first_in_first_out, law_send_appends, lemma_message_frames, lemma_same_layout,
    message_cells, seq_plus, slots_needed, slots_taken, Cell, Message,
};
use crate::error::{ChannelError, DslineError};
use crate::frame::{frame_bytes, parsed_frame, FrameView};
use crate::queue::{chunk_index_of, slot_precedes, Outcome, QueueView};
use crate::slot::{SlotState, SlotView};
use crate::spsc::{seq_after, Backpressure, SpscConfig};
use vstd::prelude::*;

verus! {

impl QueueView {
    /// How many places after the tail a slot is.
    pub open spec fn offset(self, index: int) -> int {
        if index >= self.tail {
            index - self.tail
        } else {
            index + self.config.capacity - self.tail
        }
    }

    /// The channel as a newcomer sees it: nothing is known but what the slots hold.
    pub open spec fn forgotten(self) -> QueueView {
        QueueView {
            head: 0,
            tail: 0,
            len: 0,
            next_seq: 0,
            expected_seq: 0,
            last_seq: None,
            closed: false,
            partial: None,
            ..self
        }
    }
}

/// The slots in use are those less than `len` places after the tail.
proof fn lemma_in_use(queue: QueueView, all: Seq<Cell>)
    requires
        queue.lays_out(all),
    ensures
        forall|i: int|
            0 <= i < queue.config.capacity ==> #[trigger] queue.in_use(i) == (queue.offset(i)
                < queue.len),
        forall|i: int|
            0 <= i < queue.config.capacity && !(#[trigger] queue.in_use(i))
                ==> queue.slots[i].state == SlotState::Free,
        forall|i: int|
            0 <= i < queue.config.capacity && queue.offset(i) < queue.len ==> holds_cell(
                #[trigger] queue.slots[i],
                all[queue.offset(i)],
            ),
{
    assert forall|i: int| 0 <= i < queue.config.capacity implies #[trigger] queue.in_use(i) == (
    queue.offset(i) < queue.len) && (!queue.in_use(i) ==> queue.slots[i].state == SlotState::Free)
        && (queue.offset(i) < queue.len ==> holds_cell(queue.slots[i], all[queue.offset(i)])) by {
        let k = queue.offset(i);
        assert(queue.place(k) == i);
        if k < queue.len {
            assert(holds_cell(queue.slots[queue.place(k)], all[k]));
        } else {
            assert(queue.slots[queue.place(k)].state == SlotState::Free);
        }
    }
    assert forall|i: int|
        0 <= i < queue.config.capacity && queue.offset(i) < queue.len implies holds_cell(
        #[trigger] queue.slots[i],
        all[queue.offset(i)],
    ) by {
        assert(queue.in_use(i));
    }
}

/// How many of the first slots lie in the queue, counted from its position.
spec fn used_count(queue: QueueView, count: int) -> int {
    let wrapped = queue.tail + queue.len - queue.config.capacity;
    if wrapped <= 0 {
        if count <= queue.tail {
            0
        } else if count - queue.tail <= queue.len {
            count - queue.tail
        } else {
            queue.len
        }
    } else {
        (if count <= wrapped {
            count
        } else {
            wrapped
        }) + (if count <= queue.tail {
            0
        } else {
            count - queue.tail
        })
    }
}

/// Counting the slots in use gives the length of the queue.
proof fn lemma_used(queue: QueueView, all: Seq<Cell>, other: QueueView, count: nat)
    requires
        queue.lays_out(all),
        other.slots == queue.slots,
        count <= queue.config.capacity,
    ensures
        other.used_below(count) == used_count(queue, count as int),
        used_count(queue, queue.config.capacity as int) == queue.len,
    decreases count,
{
    lemma_in_use(queue, all);
    if count > 0 {
        lemma_used(queue, all, other, (count - 1) as nat);
        assert(queue.in_use(count - 1) == (queue.offset(count - 1) < queue.len));
        assert(other.in_use(count - 1) == queue.in_use(count - 1));
    }
}

/// The run of slots in use starts at the tail, where it has a start.
proof fn lemma_run_start(queue: QueueView, all: Seq<Cell>, other: QueueView, index: int)
    requires
        queue.lays_out(all),
        other.slots == queue.slots,
        other.config == queue.config,
        0 <= index,
        0 < queue.len,
        queue.len < queue.config.capacity ==> index <= queue.tail,
    ensures
        other.run_start(index) == if queue.len < queue.config.capacity {
            Some(queue.tail)
        } else {
            None
        },
    decreases queue.config.capacity - index,
{
    lemma_in_use(queue, all);
    if index < queue.config.capacity {
        let before = other.before(index);
        assert(other.in_use(index) == queue.in_use(index));
        assert(other.in_use(before) == queue.in_use(before));
        if queue.len < queue.config.capacity && index == queue.tail {
            assert(queue.offset(before) == queue.config.capacity - 1);
        } else {
            assert(index != queue.tail ==> queue.offset(before) == queue.offset(index) - 1);
            lemma_run_start(queue, all, other, index + 1);
        }
    }
}

/// The first free slot is where the queue ends.
proof fn lemma_free_from(queue: QueueView, all: Seq<Cell>, other: QueueView, k: int)
    requires
        queue.lays_out(all),
        other.slots == queue.slots,
        other.config == queue.config,
        0 <= k <= queue.len,
    ensures
        other.free_from(queue.place(k), (queue.config.capacity - k) as nat) == queue.head,
    decreases queue.len - k,
{
    lemma_in_use(queue, all);
    if k < queue.len {
        let index = queue.place(k);
        assert(queue.in_use(index));
        assert(other.after(index) == queue.place(k + 1));
        lemma_free_from(queue, all, other, k + 1);
    } else if k < queue.config.capacity {
        assert(!queue.in_use(queue.place(k)));
    }
}

/// Which message a cell belongs to, and which of its frames the cell is to hold.
spec fn owner(config: SpscConfig, messages: Seq<Message>, k: int) -> (int, int)
    decreases messages.len(),
{
    if messages.len() == 0 {
        (0, 0)
    } else {
        let first = message_cells(config, messages[0]).len();
        if k < first {
            (0, k)
        } else {
            let (message, frame) = owner(config, messages.skip(1), k - first);
            (message + 1, frame)
        }
    }
}

/// A cell is to hold the frame of its message that `owner` says.
proof fn lemma_owner(config: SpscConfig, messages: Seq<Message>, k: int)
    requires
        0 <= k < cells(config, messages).len(),
    ensures
        ({
            let (j, c) = owner(config, messages, k);
            let frames = message_frames(config, messages[j].seq, messages[j].payload);
            &&& 0 <= j < messages.len()
            &&& 0 <= c < frames.len()
            &&& cells(config, messages)[k] == Cell { seq: messages[j].seq, frame: frames[c] }
        }),
    decreases messages.len(),
{
    if messages.len() > 0 {
        let first = message_cells(config, messages[0]).len();
        if k >= first {
            lemma_owner(config, messages.skip(1), k - first);
        }
    }
}

/// Later cells belong to later messages, or to later frames of the same one.
proof fn lemma_owner_order(config: SpscConfig, messages: Seq<Message>, k: int, l: int)
    requires
        0 <= k < l < cells(config, messages).len(),
    ensures
        ({
            let (j, c) = owner(config, messages, k);
            let (m, d) = owner(config, messages, l);
            j < m || (j == m && c < d)
        }),
    decreases messages.len(),
{
    if messages.len() > 0 {
        let first = message_cells(config, messages[0]).len();
        lemma_owner(config, messages, l);
        if k >= first {
            lemma_owner_order(config, messages.skip(1), k - first, l - first);
        } else if l >= first {
            lemma_owner(config, messages.skip(1), l - first);
        }
    }
}

/// Every message has a cell.
proof fn lemma_owner_exists(config: SpscConfig, messages: Seq<Message>, j: int) -> (k: int)
    requires
        0 <= j < messages.len(),
        config.problem() is None,
        forall|i: int|
            0 <= i < messages.len() ==> planned(config, (#[trigger] messages[i]).payload.len())
                is Ok,
    ensures
        0 <= k < cells(config, messages).len(),
        owner(config, messages, k).0 == j,
    decreases messages.len(),
{
    lemma_message_frames(config, messages[0].seq, messages[0].payload);
    let first = message_cells(config, messages[0]).len() as int;
    if j == 0 {
        0
    } else {
        let rest = messages.skip(1);
        assert forall|i: int| 0 <= i < rest.len() implies planned(
            config,
            (#[trigger] rest[i]).payload.len(),
        ) is Ok by {
            assert(rest[i] == messages[i + 1]);
        }
        let k = lemma_owner_exists(config, rest, j - 1);
        first + k
    }
}

/// The chunk index of a slot that holds a frame of a message is the place of the frame in it.
proof fn lemma_chunk_index(config: SpscConfig, message: Message, c: int, slot: SlotView)
    requires
        config.problem() is None,
        planned(config, message.payload.len()) is Ok,
        0 <= c < message_frames(config, message.seq, message.payload).len(),
        holds_cell(
            slot,
            Cell {
                seq: message.seq,
                frame: message_frames(config, message.seq, message.payload)[c],
            },
        ),
    ensures
        chunk_index_of(slot) == c,
        c <= usize::MAX,
{
    let frames = message_frames(config, message.seq, message.payload);
    lemma_message_frames(config, message.seq, message.payload);
    assert(parsed_frame(frame_bytes(frames[c])) == Ok::<FrameView, crate::error::ProtocolError>(
        frames[c],
    ));
    if message.payload.len() <= config.slot_size {
        lemma_flags_of_chunk(0, 0);
    } else {
        lemma_chunk_round_trip(message.seq, message.payload, chunk_room(config), c);
    }
}

/// Sequence numbers less than half the circle apart are ordered as they were counted.
proof fn lemma_seq_order(start: u64, m: int, n: int)
    requires
        0 <= m < 0x8000_0000_0000_0000,
        0 <= n < 0x8000_0000_0000_0000,
        m != n,
    ensures
        seq_plus(start, m) != seq_plus(start, n),
        seq_precedes(seq_plus(start, m), seq_plus(start, n)) == (m < n),
{
}

/// The order in which slots were written is the order of their places after the tail.
proof fn lemma_slot_order(queue: QueueView, messages: Seq<Message>, i: int, j: int)
    requires
        queue.holds(messages),
        queue.config.capacity < 0x8000_0000_0000_0000,
        0 <= i < queue.config.capacity,
        0 <= j < queue.config.capacity,
        queue.offset(i) < queue.len,
        queue.offset(j) < queue.len,
        i != j,
    ensures
        slot_precedes(queue.slots[i], queue.slots[j]) == (queue.offset(i) < queue.offset(j)),
{
    let config = queue.config;
    let all = cells(config, messages);
    let k = queue.offset(i);
    let l = queue.offset(j);
    let (m, c) = owner(config, messages, k);
    let (n, d) = owner(config, messages, l);
    assert(holds_cell(queue.slots[i], all[k]) && holds_cell(queue.slots[j], all[l])) by {
        lemma_in_use(queue, all);
    }
    lemma_owner(config, messages, k);
    lemma_owner(config, messages, l);
    assert(messages.len() < 0x8000_0000_0000_0000) by {
        lemma_messages_fit(config, messages);
    }
    if k < l {
        lemma_owner_order(config, messages, k, l);
    } else {
        lemma_owner_order(config, messages, l, k);
    }
    assert(messages[m].seq == seq_plus(queue.expected_seq, m));
    assert(messages[n].seq == seq_plus(queue.expected_seq, n));
    if m == n {
        lemma_chunk_index(config, messages[m], c, queue.slots[i]);
        lemma_chunk_index(config, messages[n], d, queue.slots[j]);
    } else {
        lemma_seq_order(queue.expected_seq, m, n);
    }
}

/// There are no more messages than slots in use.
proof fn lemma_messages_fit(config: SpscConfig, messages: Seq<Message>)
    requires
        config.problem() is None,
        forall|i: int|
            0 <= i < messages.len() ==> planned(config, (#[trigger] messages[i]).payload.len())
                is Ok,
    ensures
        messages.len() <= cells(config, messages).len(),
    decreases messages.len(),
{
    if messages.len() > 0 {
        lemma_message_frames(config, messages[0].seq, messages[0].payload);
        let rest = messages.skip(1);
        assert forall|i: int| 0 <= i < rest.len() implies planned(
            config,
            (#[trigger] rest[i]).payload.len(),
        ) is Ok by {
            assert(rest[i] == messages[i + 1]);
        }
        lemma_messages_fit(config, rest);
    }
}

/// Among the first slots of a full channel the one nearest after the tail is found.
proof fn lemma_oldest(queue: QueueView, messages: Seq<Message>, other: QueueView, count: nat)
    requires
        queue.holds(messages),
        queue.len == queue.config.capacity,
        queue.config.capacity < 0x8000_0000_0000_0000,
        other.slots == queue.slots,
        1 <= count <= queue.config.capacity,
    ensures
        other.oldest_below(count) matches Some(best) && 0 <= best < count && forall|i: int|
            0 <= i < count ==> queue.offset(best) <= #[trigger] queue.offset(i),
    decreases count,
{
    lemma_in_use(queue, cells(queue.config, messages));
    let index = count - 1;
    assert(queue.in_use(index));
    assert(other.in_use(index));
    if count > 1 {
        lemma_oldest(queue, messages, other, index as nat);
        let best = other.oldest_below(index as nat)->0;
        lemma_slot_order(queue, messages, index, best);
    } else {
        assert(other.oldest_below(0) is None);
    }
}

/// A slot in use has the sequence number of one of the messages held.
proof fn lemma_slot_seq(queue: QueueView, messages: Seq<Message>, index: int) -> (j: int)
    requires
        queue.holds(messages),
        0 <= index < queue.config.capacity,
        queue.in_use(index),
    ensures
        0 <= j < messages.len() <= queue.config.capacity,
        queue.slots[index].seq == seq_plus(queue.expected_seq, j),
{
    let all = cells(queue.config, messages);
    let k = queue.offset(index);
    assert(k < queue.len && holds_cell(queue.slots[index], all[k])) by {
        lemma_in_use(queue, all);
    }
    lemma_owner(queue.config, messages, k);
    lemma_messages_fit(queue.config, messages);
    let j = owner(queue.config, messages, k).0;
    assert(messages[j].seq == seq_plus(queue.expected_seq, j));
    j
}

/// How far it is from a sequence number forward to another.
pub open spec fn seq_distance(from: u64, to: u64) -> int {
    (to - from) % 0x1_0000_0000_0000_0000
}

/// Of a number known and the number after a message, the one taken is behind neither.
proof fn lemma_nearer_number(known: u64, start: u64, n: int, j: int)
    requires
        0 <= j < n < 0x8000_0000_0000_0000,
        seq_distance(known, seq_plus(start, n)) < 0x8000_0000_0000_0000,
    ensures
        ({
            let next = seq_plus(start, n);
            let candidate = seq_after(seq_plus(start, j));
            let taken = if seq_precedes(known, candidate) {
                candidate
            } else {
                known
            };
            &&& seq_distance(taken, next) <= seq_distance(known, next)
            &&& seq_distance(taken, next) <= seq_distance(candidate, next)
        }),
{
    let next = seq_plus(start, n);
    let candidate = seq_after(seq_plus(start, j));
    assert(candidate == seq_plus(start, j + 1));
    assert(seq_distance(candidate, next) == n - j - 1);
}

/// The number found lies between the number known and the next one to be given, and behind no
/// message in the slots looked at.
proof fn lemma_number_found(queue: QueueView, messages: Seq<Message>, other: QueueView, count: nat)
    requires
        queue.holds(messages),
        queue.config.capacity < 0x8000_0000_0000_0000,
        other.slots == queue.slots,
        seq_distance(other.next_seq, queue.next_seq) < 0x8000_0000_0000_0000,
        count <= queue.config.capacity,
    ensures
        seq_distance(other.numbered_below(count), queue.next_seq) <= seq_distance(
            other.next_seq,
            queue.next_seq,
        ),
        forall|i: int|
            0 <= i < count && queue.in_use(i) ==> seq_distance(
                other.numbered_below(count),
                queue.next_seq,
            ) <= seq_distance(seq_after((#[trigger] queue.slots[i]).seq), queue.next_seq),
    decreases count,
{
    if count > 0 {
        let index = count - 1;
        lemma_number_found(queue, messages, other, index as nat);
        assert(other.in_use(index) == queue.in_use(index));
        if queue.in_use(index) {
            let j = lemma_slot_seq(queue, messages, index);
            lemma_nearer_number(
                other.numbered_below(index as nat),
                queue.expected_seq,
                messages.len() as int,
                j,
            );
        }
    }
}

/// The number after the last message is the next one to be given.
proof fn lemma_number_after(start: u64, n: int)
    requires
        n > 0,
    ensures
        seq_after(seq_plus(start, n - 1)) == seq_plus(start, n),
{
}

/// A number at no distance from another is that number.
proof fn lemma_no_distance(from: u64, to: u64)
    requires
        seq_distance(from, to) <= seq_distance(to, to),
    ensures
        from == to,
{
}

/// Where there are messages, the number found is the next one to be given.
proof fn lemma_next_number(queue: QueueView, messages: Seq<Message>, handle: QueueView)
    requires
        queue.holds(messages),
        messages.len() > 0,
        queue.config.capacity < 0x8000_0000_0000_0000,
        handle.slots == queue.slots,
        seq_distance(handle.next_seq, queue.next_seq) < 0x8000_0000_0000_0000,
    ensures
        handle.numbered_below(queue.config.capacity as nat) == queue.next_seq,
{
    let all = cells(queue.config, messages);
    let capacity = queue.config.capacity as nat;
    lemma_number_found(queue, messages, handle, capacity);
    let k = lemma_owner_exists(queue.config, messages, messages.len() - 1);
    lemma_owner(queue.config, messages, k);
    let last = queue.place(k);
    assert(queue.offset(last) == k);
    lemma_in_use(queue, all);
    assert(queue.in_use(last));
    assert(holds_cell(queue.slots[last], all[k]));
    assert(messages[messages.len() - 1].seq == seq_plus(queue.expected_seq, messages.len() - 1));
    lemma_number_after(queue.expected_seq, messages.len() as int);
    lemma_no_distance(handle.numbered_below(capacity), queue.next_seq);
}

/// The slot at the tail has the sequence number that is due.
proof fn lemma_tail_seq(queue: QueueView, messages: Seq<Message>)
    requires
        queue.holds(messages),
        messages.len() > 0,
    ensures
        queue.len > 0,
        queue.slots[queue.tail].seq == queue.expected_seq,
{
    lemma_in_use(queue, cells(queue.config, messages));
    lemma_messages_fit(queue.config, messages);
    lemma_message_frames(queue.config, messages[0].seq, messages[0].payload);
    lemma_owner(queue.config, messages, 0);
    assert(holds_cell(queue.slots[queue.tail], cells(queue.config, messages)[0]));
    assert(messages[0].seq == seq_plus(queue.expected_seq, 0));
}

/// Whether a handle on a channel knows enough to find the messages in the slots: the number it
/// would give next is not ahead of the channel's, and where all slots are in use it has no wrong
/// belief about where the first one is.
pub open spec fn can_catch_up(handle: QueueView, queue: QueueView) -> bool {
    &&& handle.slots == queue.slots
    &&& handle.config == queue.config
    &&& handle.len_range == queue.len_range
    &&& handle.partial is None
    &&& queue.len == queue.config.capacity && handle.len > 0 ==> handle.tail == queue.tail
    &&& seq_distance(handle.next_seq, queue.next_seq) < 0x8000_0000_0000_0000
}

/// A handle on a channel finds the messages that the slots hold, in order, wherever they lie and
/// also where every slot is in use. Where there are any, it also finds the number that the next
/// message gets.
pub proof fn law_handle_catches_up(handle: QueueView, queue: QueueView, messages: Seq<Message>)
    requires
        queue.holds(messages),
        queue.config.capacity < 0x8000_0000_0000_0000,
        can_catch_up(handle, queue),
    ensures
        handle.refreshed().holds(messages),
        handle.refreshed().next_seq == if messages.len() > 0 {
            queue.next_seq
        } else {
            handle.next_seq
        },
        messages.len() > 0 ==> handle.refreshed().tail == queue.tail,
        handle.refreshed().config == handle.config,
        handle.refreshed().waits == handle.waits,
        handle.refreshed().last_seq == handle.last_seq,
        handle.refreshed().closed == handle.closed,
{
    let all = cells(queue.config, messages);
    let after = handle.refreshed();
    let capacity = queue.config.capacity as nat;
    lemma_used(queue, all, handle, capacity);
    lemma_in_use(queue, all);
    lemma_messages_fit(queue.config, messages);
    if messages.len() == 0 {
        assert forall|k: int| 0 <= k < capacity implies #[trigger] after.slots[after.place(
            k,
        )].state == SlotState::Free by {
            assert(!queue.in_use(after.place(k)));
        }
    } else {
        lemma_tail_seq(queue, messages);
        lemma_run_start(queue, all, handle, 0);
        lemma_free_from(queue, all, handle, 0);
        assert(queue.in_use(queue.tail));
        if queue.len == queue.config.capacity {
            lemma_oldest(queue, messages, handle, capacity);
            assert(queue.offset(queue.tail) == 0);
        }
        assert(handle.found_tail() == queue.tail);
        lemma_next_number(queue, messages, handle);
        lemma_same_layout(queue, after, all);
    }
}

/// Looking at the slots afresh finds what the channel holds and keeps its count.
pub proof fn law_refresh_keeps_messages(queue: QueueView, messages: Seq<Message>)
    requires
        queue.holds(messages),
        queue.config.capacity < 0x8000_0000_0000_0000,
    ensures
        queue.refreshed().holds(messages),
        queue.same_counters(queue.refreshed()),
{
    law_handle_catches_up(queue, queue, messages);
    if messages.len() > 0 {
        lemma_tail_seq(queue, messages);
    }
}

/// A newcomer finds the messages that the slots hold, in order, wherever they lie and also where
/// every slot is in use, as long as the next sequence number is in the lower half of their range.
pub proof fn law_reopening_recovers_messages(queue: QueueView, messages: Seq<Message>)
    requires
        queue.holds(messages),
        queue.config.capacity < 0x8000_0000_0000_0000,
        queue.next_seq < 0x8000_0000_0000_0000,
    ensures
        queue.forgotten().refreshed().holds(messages),
        messages.len() > 0 ==> queue.forgotten().refreshed().next_seq == queue.next_seq,
{
    law_handle_catches_up(queue.forgotten(), queue, messages);
}

/// Over slots that are looked at first, too, the oldest message comes out unchanged and the
/// others stay, in order.
pub proof fn law_shared_recv_is_first_in_first_out(queue: QueueView, messages: Seq<Message>)
    requires
        queue.holds(messages),
        queue.config.capacity < 0x8000_0000_0000_0000,
        messages.len() > 0,
    ensures
        queue.shared_received().1 == (Outcome::Message {
            seq: messages[0].seq,
            payload: messages[0].payload,
        }),
        queue.shared_received().0.holds(messages.skip(1)),
        queue.delivered(messages[0].seq).same_counters(queue.shared_received().0),
{
    law_refresh_keeps_messages(queue, messages);
    law_recv_is_first_in_first_out(queue.refreshed(), messages);
}

/// Over slots that are looked at first, too, a message that fits is accepted and stands behind
/// all others.
pub proof fn law_shared_send_appends(queue: QueueView, messages: Seq<Message>, payload: Seq<u8>)
    requires
        queue.holds(messages),
        queue.config.capacity < 0x8000_0000_0000_0000,
        !queue.closed,
        planned(queue.config, payload.len()) is Ok,
        slots_taken(queue.config, messages) + slots_needed(queue.config, payload)
            <= queue.config.capacity,
    ensures
        queue.shared_sent(payload).1 is Ok,
        queue.shared_sent(payload).0.holds(
            messages.push(Message { seq: queue.next_seq, payload }),
        ),
        queue.numbered().same_counters(queue.shared_sent(payload).0),
{
    law_refresh_keeps_messages(queue, messages);
    law_send_appends(queue.refreshed(), messages, payload);
}

/// Over slots that are looked at first, too, a message that does not fit now is dealt with as
/// configured: refused, discarded, or let in for as many of the oldest messages as it takes.
pub proof fn law_shared_backpressure(queue: QueueView, messages: Seq<Message>, payload: Seq<u8>)
    requires
        queue.holds(messages),
        queue.config.capacity < 0x8000_0000_0000_0000,
        !queue.closed,
        planned(queue.config, payload.len()) is Ok,
        slots_taken(queue.config, messages) + slots_needed(queue.config, payload)
            > queue.config.capacity,
    ensures
        ({
            let (after, r) = queue.shared_sent(payload);
            let count = drops_for(queue.config, messages, slots_needed(queue.config, payload));
            match queue.config.backpressure {
                Backpressure::Raise | Backpressure::Block => r == Err::<(), DslineError>(
                    DslineError::Channel(ChannelError::BufferFull),
                ) && after.holds(messages) && queue.same_counters(after),
                Backpressure::DropNewest => r is Ok && after.holds(messages)
                    && queue.same_counters(after),
                Backpressure::DropOldest => r is Ok && after.holds(
                    messages.skip(count as int).push(Message { seq: queue.next_seq, payload }),
                ) && (QueueView {
                    expected_seq: seq_plus(queue.expected_seq, count as int),
                    ..queue.numbered()
                }).same_counters(after),
            }
        }),
{
    law_refresh_keeps_messages(queue, messages);
    let found = queue.refreshed();
    law_full_channel_keeps_its_messages(found, messages, payload);
    if queue.config.backpressure is DropOldest {
        law_drop_oldest_makes_room(found, messages, payload);
    }
}

/// How many of some slots are in use.
pub open spec fn in_use_among(slots: Seq<SlotView>) -> nat
    decreases slots.len(),
{
    if slots.len() == 0 {
        0
    } else {
        in_use_among(slots.drop_last()) + match slots.last().state {
            SlotState::Writing | SlotState::Committed | SlotState::Pinned => 1nat,
            SlotState::Free | SlotState::Corrupted => 0nat,
        }
    }
}

/// The slots in use are counted one by one.
proof fn lemma_in_use_among(queue: QueueView, count: nat)
    requires
        count <= queue.slots.len(),
    ensures
        queue.used_below(count) == in_use_among(queue.slots.take(count as int)),
    decreases count,
{
    let part = queue.slots.take(count as int);
    if count > 0 {
        lemma_in_use_among(queue, (count - 1) as nat);
        assert(part.drop_last() =~= queue.slots.take(count - 1));
        assert(part.last() == queue.slots[count - 1]);
    }
}

/// The start of a run that is found is the first one.
proof fn lemma_found_run_start(queue: QueueView, index: int)
    requires
        0 <= index,
    ensures
        match queue.run_start(index) {
            Some(k) => {
                &&& index <= k < queue.config.capacity
                &&& queue.in_use(k)
                &&& !queue.in_use(queue.before(k))
            },
            None => true,
        },
    decreases queue.config.capacity - index,
{
    if index < queue.config.capacity {
        lemma_found_run_start(queue, index + 1);
    }
}

/// Where no start of a run is found, no slot is one.
proof fn lemma_no_start_at(queue: QueueView, from: int, k: int)
    requires
        queue.run_start(from) is None,
        from <= k < queue.config.capacity,
    ensures
        queue.in_use(k) ==> queue.in_use(queue.before(k)),
    decreases queue.config.capacity - from,
{
    if from < k {
        lemma_no_start_at(queue, from + 1, k);
    }
}

/// Where a run has no start and some slot is in use, every slot is.
proof fn lemma_no_run_start(queue: QueueView, used: int, distance: nat)
    requires
        queue.run_start(0) is None,
        0 <= used < queue.config.capacity,
        queue.in_use(used),
        distance < queue.config.capacity,
    ensures
        queue.in_use(
            if used >= distance {
                used - distance
            } else {
                used - distance + queue.config.capacity
            },
        ),
    decreases distance,
{
    if distance > 0 {
        let near = if used >= distance - 1 {
            used - (distance - 1)
        } else {
            used - (distance - 1) + queue.config.capacity
        };
        lemma_no_run_start(queue, used, (distance - 1) as nat);
        lemma_no_start_at(queue, 0, near);
    }
}

/// The first free slot that is found is one, unless none was.
proof fn lemma_found_free(queue: QueueView, index: int, count: nat)
    requires
        0 <= index < queue.config.capacity,
    ensures
        0 <= queue.free_from(index, count) < queue.config.capacity,
    decreases count,
{
    if count > 0 && queue.slots[index].state != SlotState::Free {
        lemma_found_free(queue, queue.after(index), (count - 1) as nat);
    }
}

/// Looking at the slots afresh, whatever they hold: as many are in use as are being written, are
/// written or are being read. Where none is, the positions start over and the next number is due.
/// Otherwise the number that is due is that of the slot at the tail, which is in use; where not all
/// are in use the slot before it is not; and where all are, a tail that was known stays.
pub proof fn law_looking_afresh_counts_the_slots(queue: QueueView)
    requires
        queue.slots.len() == queue.config.capacity,
        queue.config.capacity > 0,
        0 <= queue.tail < queue.config.capacity,
    ensures
        ({
            let after = queue.refreshed();
            let used = in_use_among(queue.slots);
            &&& after.len == used
            &&& after.slots == queue.slots
            &&& after.config == queue.config
            &&& after.last_seq == queue.last_seq
            &&& after.closed == queue.closed
            &&& after.partial == queue.partial
            &&& used == 0 ==> after.head == 0 && after.tail == 0 && after.expected_seq
                == queue.next_seq && after.next_seq == queue.next_seq
            &&& used > 0 ==> {
                let tail = after.tail;
                &&& 0 <= tail < queue.config.capacity
                &&& 0 <= after.head < queue.config.capacity
                &&& after.expected_seq == queue.slots[tail].seq
                &&& queue.slots[tail].state == SlotState::Writing || queue.slots[tail].state
                    == SlotState::Committed || queue.slots[tail].state == SlotState::Pinned
            }
            &&& 0 < used < queue.config.capacity ==> {
                let before = if after.tail == 0 {
                    queue.config.capacity - 1
                } else {
                    after.tail - 1
                };
                queue.slots[before].state == SlotState::Free || queue.slots[before].state
                    == SlotState::Corrupted
            }
            &&& used == queue.config.capacity && queue.len > 0 ==> after.tail == queue.tail
        }),
{
    let capacity = queue.config.capacity as nat;
    let after = queue.refreshed();
    lemma_in_use_among(queue, capacity);
    assert(queue.slots.take(capacity as int) =~= queue.slots);
    lemma_found_run_start(queue, 0);
    lemma_used_slots(queue, capacity);
    if queue.used_below(capacity) > 0 {
        if queue.run_start(0) is None {
            let used = choose|k: int| 0 <= k < capacity && #[trigger] queue.in_use(k);
            assert forall|k: int| 0 <= k < capacity implies #[trigger] queue.in_use(k) by {
                let distance = if used >= k {
                    used - k
                } else {
                    used - k + capacity
                };
                lemma_no_run_start(queue, used, distance as nat);
            }
            lemma_oldest_in_use(queue, capacity);
        }
        lemma_found_free(queue, after.tail, capacity);
    }
}

/// Slots are counted as in use where they are.
proof fn lemma_used_slots(queue: QueueView, count: nat)
    ensures
        queue.used_below(count) > 0 ==> exists|k: int| 0 <= k < count && #[trigger] queue.in_use(k),
        queue.used_below(count) <= count,
        (forall|k: int| 0 <= k < count ==> #[trigger] queue.in_use(k)) <==> queue.used_below(count)
            == count,
    decreases count,
{
    if count > 0 {
        lemma_used_slots(queue, (count - 1) as nat);
        if queue.in_use(count - 1) {
            assert(0 <= count - 1 < count && queue.in_use(count - 1));
        }
        if queue.used_below(count) == count {
            assert forall|k: int| 0 <= k < count implies #[trigger] queue.in_use(k) by {
                if k < count - 1 {
                    assert(queue.used_below((count - 1) as nat) == count - 1);
                }
            }
        }
    }
}

/// The oldest slot is one of those in use.
proof fn lemma_oldest_in_use(queue: QueueView, count: nat)
    ensures
        match queue.oldest_below(count) {
            Some(k) => 0 <= k < count && queue.in_use(k),
            None => forall|k: int| 0 <= k < count ==> !(#[trigger] queue.in_use(k)),
        },
    decreases count,
{
    if count > 0 {
        lemma_oldest_in_use(queue, (count - 1) as nat);
    }
}

} // verus!
