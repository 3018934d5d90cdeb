//! What every operation of a channel keeps: the slots in use lie in one run from the tail on.

use crate::chunk::{labelled, lemma_plan_fits, message_frames, planned, ChunkInfo};
use crate::delivery::{cells, holds_cell, lemma_message_frames, Message};
use crate::error::DslineError;
use crate::frame::{frame_bytes, FrameView};
use crate::queue::{Piece, QueueView};
use crate::slot::SlotState;
use vstd::prelude::*;

verus! {

/// Whether a slot holds a frame that is to be read or is being read.
pub open spec fn holds_frame(state: SlotState) -> bool {
    state == SlotState::Committed || state == SlotState::Pinned
}

impl QueueView {
    /// Whether the slots from the tail on, as many as are in use, hold frames, all others are
    /// free, and the head is the slot behind them.
    pub open spec fn windowed(self) -> bool {
        &&& self.config.problem() is None
        &&& self.slots.len() == self.config.capacity
        &&& 0 <= self.tail < self.config.capacity
        &&& 0 <= self.len <= self.config.capacity
        &&& self.head == self.place(self.len)
        &&& forall|k: int|
            0 <= k < self.len ==> holds_frame((#[trigger] self.slots[self.place(k)]).state)
        &&& forall|k: int|
            self.len <= k < self.config.capacity ==> (#[trigger] self.slots[self.place(k)]).state
                == SlotState::Free
    }
}

/// The messages that a channel holds lie in one run. A new channel holds none, so the run starts
/// out empty.
pub proof fn law_held_messages_lie_in_one_run(queue: QueueView, messages: Seq<Message>)
    requires
        queue.holds(messages),
    ensures
        queue.windowed(),
{
    let laid = cells(queue.config, messages);
    assert forall|k: int| 0 <= k < queue.len implies holds_frame(
        (#[trigger] queue.slots[queue.place(k)]).state,
    ) by {
        assert(holds_cell(queue.slots[queue.place(k)], laid[k]));
    }
}

/// Only the slots, the positions and the configuration decide about the run.
proof fn lemma_same_window(queue: QueueView, other: QueueView)
    requires
        queue.windowed(),
        other.slots == queue.slots,
        other.config == queue.config,
        other.head == queue.head,
        other.tail == queue.tail,
        other.len == queue.len,
    ensures
        other.windowed(),
{
    assert forall|k: int| 0 <= k < other.len implies holds_frame(
        (#[trigger] other.slots[other.place(k)]).state,
    ) by {
        assert(holds_frame(queue.slots[queue.place(k)].state));
    }
    assert forall|k: int| other.len <= k < other.config.capacity implies (
    #[trigger] other.slots[other.place(k)]).state == SlotState::Free by {
        assert(queue.slots[queue.place(k)].state == SlotState::Free);
    }
}

/// A slot at the tail that is not free is in use.
proof fn lemma_tail_in_use(queue: QueueView)
    requires
        queue.windowed(),
        queue.oldest().state != SlotState::Free,
    ensures
        queue.len > 0,
{
    assert(queue.place(0) == queue.tail);
    if queue.len == 0 {
        assert(queue.slots[queue.place(0)].state == SlotState::Free);
    }
}

/// Pinning the slot at the tail keeps the run.
proof fn lemma_pin_keeps(queue: QueueView)
    requires
        queue.windowed(),
        queue.oldest().state == SlotState::Committed,
    ensures
        queue.pinned().windowed(),
        queue.pinned().len > 0,
        queue.pinned().oldest().state == SlotState::Pinned,
{
    let after = queue.pinned();
    lemma_tail_in_use(queue);
    assert forall|k: int| 0 <= k < after.len implies holds_frame(
        (#[trigger] after.slots[after.place(k)]).state,
    ) by {
        assert(after.place(k) == queue.place(k));
        assert(holds_frame(queue.slots[queue.place(k)].state));
    }
    assert forall|k: int| after.len <= k < after.config.capacity implies (
    #[trigger] after.slots[after.place(k)]).state == SlotState::Free by {
        assert(after.place(k) == queue.place(k));
        assert(queue.slots[queue.place(k)].state == SlotState::Free);
    }
}

/// Releasing the slot at the tail keeps the run.
proof fn lemma_advance_keeps(queue: QueueView)
    requires
        queue.windowed(),
        queue.len > 0,
    ensures
        queue.advanced().windowed(),
        queue.advanced().len == queue.len - 1,
{
    let after = queue.advanced();
    assert forall|k: int| 0 <= k < after.len implies holds_frame(
        (#[trigger] after.slots[after.place(k)]).state,
    ) by {
        assert(after.place(k) == queue.place(k + 1));
        assert(holds_frame(queue.slots[queue.place(k + 1)].state));
    }
    assert forall|k: int| after.len <= k < after.config.capacity implies (
    #[trigger] after.slots[after.place(k)]).state == SlotState::Free by {
        if k + 1 < queue.config.capacity {
            assert(after.place(k) == queue.place(k + 1));
            assert(queue.slots[queue.place(k + 1)].state == SlotState::Free);
        } else {
            assert(after.place(k) == queue.tail);
        }
    }
}

/// Receiving one chunk keeps the run.
proof fn lemma_chunk_keeps(queue: QueueView, seq: u64, due: ChunkInfo)
    requires
        queue.windowed(),
    ensures
        queue.took_chunk(seq, due).0.windowed(),
{
    if queue.obstacle() is None {
        lemma_pin_keeps(queue);
        lemma_advance_keeps(queue.pinned());
    }
}

/// Receiving the chunks of a message keeps the run.
proof fn lemma_gather_keeps(
    queue: QueueView,
    seq: u64,
    info: ChunkInfo,
    next: int,
    payload: Seq<u8>,
)
    requires
        queue.windowed(),
    ensures
        queue.gathered(seq, info, next, payload).0.windowed(),
    decreases info.total - next,
{
    if next >= info.total {
        lemma_same_window(queue, queue.delivered(seq));
    } else {
        let due = ChunkInfo { index: next as usize, ..info };
        lemma_chunk_keeps(queue, seq, due);
        let (after, piece) = queue.took_chunk(seq, due);
        match piece {
            Piece::Part(part) => {
                lemma_gather_keeps(after, seq, info, next + 1, payload + part);
            },
            Piece::Waiting => {
                lemma_same_window(after, queue.gathered(seq, info, next, payload).0);
            },
            Piece::Failed(_) => {},
        }
    }
}

/// Receiving keeps the run, whatever the frames hold and whatever comes of it.
pub proof fn law_receiving_keeps_the_run(queue: QueueView)
    requires
        queue.windowed(),
    ensures
        queue.received().0.windowed(),
{
    match queue.partial {
        Some(p) => {
            lemma_same_window(queue, queue.settled());
            lemma_gather_keeps(queue.settled(), p.seq, p.info, p.next, p.payload);
        },
        None => {
            if queue.len > 0 && queue.obstacle() is None {
                lemma_pin_keeps(queue);
                let held = queue.pinned();
                lemma_advance_keeps(held);
                let left = held.advanced();
                lemma_same_window(left, left.counted());
                lemma_same_window(left, left.delivered(held.oldest().seq));
                match queue.oldest_frame() {
                    Err(_) => {},
                    Ok(frame) => {
                        match labelled(frame.metadata) {
                            Err(_) => {},
                            Ok(info) => {
                                lemma_gather_keeps(
                                    left,
                                    held.oldest().seq,
                                    info,
                                    1,
                                    frame.payload,
                                );
                            },
                        }
                    },
                }
            }
        },
    }
}

/// Discarding slots keeps the run, and takes at least one where it is asked to and succeeds.
proof fn lemma_discard_keeps(queue: QueueView, count: nat)
    requires
        queue.windowed(),
    ensures
        queue.discarded(count).0.windowed(),
        queue.discarded(count).0.config == queue.config,
        queue.discarded(count).0.len <= queue.len,
        queue.discarded(count).1 is Ok ==> queue.discarded(count).0.len == queue.len - count,
    decreases count,
{
    if count == 0 {
        lemma_same_window(queue, queue.counted());
    } else if queue.oldest().state == SlotState::Committed {
        lemma_tail_in_use(queue);
        lemma_advance_keeps(queue);
        lemma_discard_keeps(queue.advanced(), (count - 1) as nat);
    }
}

/// Making room keeps the run.
proof fn lemma_clear_keeps(queue: QueueView, needed: nat)
    requires
        queue.windowed(),
        needed <= queue.config.capacity,
    ensures
        queue.cleared(needed).0.windowed(),
        queue.cleared(needed).0.config == queue.config,
        queue.cleared(needed).1 is Ok ==> queue.cleared(needed).0.has_room(needed),
    decreases queue.len,
{
    if !queue.has_room(needed) {
        match queue.oldest_span() {
            Err(_) => {},
            Ok(count) => {
                lemma_discard_keeps(queue, count as nat);
                let next = queue.dropped().0;
                if queue.dropped().1 is Ok && 0 <= next.len < queue.len {
                    lemma_clear_keeps(next, needed);
                }
                assert(count >= 1);
            },
        }
    }
}

/// Writing frames where there is room keeps the run, and does not fail.
proof fn lemma_store_keeps(queue: QueueView, seq: u64, frames: Seq<FrameView>)
    requires
        queue.windowed(),
        queue.has_room(frames.len()),
    ensures
        queue.stored(seq, frames).0.windowed(),
        queue.stored(seq, frames).1 is Ok,
    decreases frames.len(),
{
    if frames.len() > 0 {
        let after = queue.with_frame(seq, frame_bytes(frames[0]));
        assert(queue.slots[queue.place(queue.len)].state == SlotState::Free);
        assert forall|k: int| 0 <= k < after.len implies holds_frame(
            (#[trigger] after.slots[after.place(k)]).state,
        ) by {
            assert(after.place(k) == queue.place(k));
            if k < queue.len {
                assert(holds_frame(queue.slots[queue.place(k)].state));
            }
        }
        assert forall|k: int| after.len <= k < after.config.capacity implies (
        #[trigger] after.slots[after.place(k)]).state == SlotState::Free by {
            assert(after.place(k) == queue.place(k));
            assert(queue.slots[queue.place(k)].state == SlotState::Free);
        }
        lemma_store_keeps(after, seq, frames.skip(1));
    }
}

/// Sending keeps the run, whatever the frames in it hold. Once there is room for a message, all of
/// its frames are written.
pub proof fn law_sending_keeps_the_run(queue: QueueView, payload: Seq<u8>)
    requires
        queue.windowed(),
    ensures
        queue.sent(payload).0.windowed(),
        !queue.closed && (planned(queue.config, payload.len()) matches Ok(plan) && queue.has_room(
            plan.needed_slots as nat,
        )) ==> queue.sent(payload).1 is Ok,
{
    match planned(queue.config, payload.len()) {
        Err(_) => {},
        Ok(plan) => {
            let needed = plan.needed_slots as nat;
            lemma_plan_fits(queue.config, payload.len());
            lemma_clear_keeps(queue, needed);
            let (ready, answer) = queue.prepared(needed);
            if !queue.closed && answer == Ok::<bool, DslineError>(true) {
                lemma_message_frames(ready.config, ready.next_seq, payload);
                lemma_same_window(ready, ready.numbered());
                lemma_store_keeps(
                    ready.numbered(),
                    ready.next_seq,
                    message_frames(ready.config, ready.next_seq, payload),
                );
            }
        },
    }
}

} // verus!
