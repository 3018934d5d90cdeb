//! Slots: their states, what they hold, and what a region of slots does.

use crate::error::{ChannelError, DslineError};
use crate::storage::told;
use vstd::arithmetic::div_mod::lemma_small_mod;
use vstd::prelude::*;

verus! {

/// Where a slot is on its way from writer to reader.
#[derive(Debug, Clone, Copy, PartialEq, Eq, Structural)]
pub enum SlotState {
    Free,
    Writing,
    Committed,
    Pinned,
    Corrupted,
}

/// A copy of what a slot holds.
#[derive(Debug, Clone, PartialEq, Eq)]
pub struct SlotSnapshot {
    pub state: SlotState,
    pub seq: u64,
    pub payload_len: usize,
    pub data: Vec<u8>,
}

/// What a slot holds: its state, the sequence number and length noted for it, and the bytes of
/// its frame area, used or not.
#[verifier::ext_equal]
pub struct SlotView {
    pub state: SlotState,
    pub seq: u64,
    pub len: nat,
    pub body: Seq<u8>,
}

impl SlotView {
    /// The slot in another state.
    pub open spec fn in_state(self, state: SlotState) -> SlotView {
        SlotView { state, ..self }
    }

    /// The slot after a release: free and cleared.
    pub open spec fn released(self) -> SlotView {
        SlotView { state: SlotState::Free, seq: 0, len: 0, body: zeros(self.body.len()) }
    }

    /// The slot with a frame at the start of its frame area. The length noted is what remains
    /// of the frame's length when the length field counts up to `len_range`.
    pub open spec fn with_frame(
        self,
        state: SlotState,
        seq: u64,
        frame: Seq<u8>,
        len_range: nat,
    ) -> SlotView {
        SlotView {
            state,
            seq,
            len: frame.len() % len_range,
            body: overwritten(self.body, frame),
        }
    }

    /// The bytes in use, or why they cannot be had.
    pub open spec fn data(self) -> Result<Seq<u8>, DslineError> {
        if self.len > self.body.len() {
            Err(
                DslineError::Channel(
                    ChannelError::MessageTooLarge {
                        len: self.len as usize,
                        slot_size: self.body.len() as usize,
                    },
                ),
            )
        } else {
            Ok(self.body.take(self.len as int))
        }
    }

    /// The frame of a committed slot, or why it cannot be had.
    pub open spec fn committed_frame(self) -> Result<Seq<u8>, DslineError> {
        if self.state != SlotState::Committed {
            Err(DslineError::Channel(ChannelError::BufferEmpty))
        } else {
            self.data()
        }
    }
}

/// A run of zero bytes.
pub open spec fn zeros(len: nat) -> Seq<u8> {
    Seq::new(len, |i: int| 0u8)
}

/// A byte sequence with its first bytes replaced.
pub open spec fn overwritten(bytes: Seq<u8>, front: Seq<u8>) -> Seq<u8> {
    front + bytes.skip(front.len() as int)
}

/// The error for a slot that does not exist.
pub open spec fn no_such_slot() -> DslineError {
    DslineError::Channel(ChannelError::InvalidConfig("slot index out of range"))
}

/// Whether a snapshot shows this slot's frame, in the given state.
pub open spec fn shows(snapshot: SlotSnapshot, slot: SlotView, state: SlotState) -> bool {
    &&& snapshot.state == state
    &&& snapshot.seq == slot.seq
    &&& snapshot.payload_len == slot.len
    &&& slot.committed_frame() == Ok::<Seq<u8>, DslineError>(snapshot.data@)
}

/// What stays the same about a region.
pub struct RegionShape {
    /// How many slots there are.
    pub capacity: nat,
    /// How many bytes of frame a slot can take.
    pub frame_room: nat,
    /// One more than the largest length that can be noted for a slot.
    pub len_range: nat,
    /// Whether every request is carried out and nobody else writes.
    pub stable: bool,
}

/// A region of slots, as a channel uses it.
///
/// What the slots hold is promised only of a region that is stable: the backing store of another
/// one may fail, or may be shared with another process.
pub trait SlotRegion: Sized {
    /// Whether the region is in a state in which it can be used.
    spec fn valid(&self) -> bool;

    /// What no request changes.
    spec fn shape(&self) -> RegionShape;

    /// What the slots hold.
    spec fn slots(&self) -> Seq<SlotView>;

    /// The error that a request to write failed with last, as far as is told.
    spec fn fault(&self) -> Option<DslineError>;

    /// The error that reading the frame of a slot gives, where it is told that it gives one.
    spec fn unreadable(&self, index: usize) -> Option<DslineError>;

    /// The error that reading the header of a slot gives, where it is told that it gives one.
    spec fn hidden(&self, index: usize) -> Option<DslineError>;

    /// There are as many slots as promised, each with as much room as promised.
    proof fn lemma_shape(&self)
        requires
            self.valid(),
            self.shape().stable,
        ensures
            self.slots().len() == self.shape().capacity,
            forall|i: int|
                0 <= i < self.slots().len() ==> #[trigger] self.slots()[i].body.len()
                    == self.shape().frame_room,
    ;

    /// The state and the sequence number of a slot.
    fn slot_header(&self, index: usize) -> (r: Result<(SlotState, u64), DslineError>)
        requires
            self.valid(),
            index < self.shape().capacity,
        ensures
            self.hidden(index) matches Some(e) ==> r == Err::<(SlotState, u64), DslineError>(e),
            self.shape().stable ==> r == Ok::<(SlotState, u64), DslineError>(
                (self.slots()[index as int].state, self.slots()[index as int].seq),
            ),
    ;

    /// Writes a frame to a free slot.
    fn commit(&mut self, index: usize, seq: u64, frame: &[u8]) -> (r: Result<(), DslineError>)
        requires
            old(self).valid(),
            index < old(self).shape().capacity,
            frame@.len() <= old(self).shape().frame_room,
        ensures
            final(self).valid(),
            final(self).shape() == old(self).shape(),
            told(old(self).fault(), final(self).fault(), r),
            old(self).shape().stable ==> {
                let slot = old(self).slots()[index as int];
                if slot.state == SlotState::Free {
                    &&& r == Ok::<(), DslineError>(())
                    &&& final(self).slots() == old(self).slots().update(
                        index as int,
                        slot.with_frame(
                            SlotState::Committed,
                            seq,
                            frame@,
                            old(self).shape().len_range,
                        ),
                    )
                } else {
                    &&& r == Err::<(), DslineError>(DslineError::Channel(ChannelError::BufferFull))
                    &&& final(self).slots() == old(self).slots()
                }
            },
    ;

    /// Reads the frame of a committed slot and pins the slot.
    fn pin(&mut self, index: usize) -> (r: Result<SlotSnapshot, DslineError>)
        requires
            old(self).valid(),
            index < old(self).shape().capacity,
        ensures
            final(self).valid(),
            final(self).shape() == old(self).shape(),
            told(old(self).fault(), final(self).fault(), r),
            old(self).unreadable(index) matches Some(e) ==> r == Err::<SlotSnapshot, DslineError>(
                e,
            ),
            old(self).shape().stable ==> {
                let slot = old(self).slots()[index as int];
                match slot.committed_frame() {
                    Ok(_) => {
                        &&& r matches Ok(snapshot) && shows(snapshot, slot, SlotState::Pinned)
                        &&& final(self).slots() == old(self).slots().update(
                            index as int,
                            slot.in_state(SlotState::Pinned),
                        )
                    },
                    Err(e) => {
                        &&& r == Err::<SlotSnapshot, DslineError>(e)
                        &&& final(self).slots() == old(self).slots()
                    },
                }
            },
    ;

    /// Reads the frame of a committed slot.
    fn peek(&self, index: usize) -> (r: Result<SlotSnapshot, DslineError>)
        requires
            self.valid(),
            index < self.shape().capacity,
        ensures
            r matches Ok(snapshot) ==> snapshot.data@.len() <= self.shape().frame_room,
            self.unreadable(index) matches Some(e) ==> r == Err::<SlotSnapshot, DslineError>(e),
            self.shape().stable ==> {
                let slot = self.slots()[index as int];
                match slot.committed_frame() {
                    Ok(_) => r matches Ok(snapshot) && shows(snapshot, slot, SlotState::Committed),
                    Err(e) => r == Err::<SlotSnapshot, DslineError>(e),
                }
            },
    ;

    /// Replaces the first bytes of a slot's frame area and leaves everything else as it is.
    fn rewrite(&mut self, index: usize, data: &[u8]) -> (r: Result<(), DslineError>)
        requires
            old(self).valid(),
            index < old(self).shape().capacity,
            data@.len() <= old(self).shape().frame_room,
        ensures
            final(self).valid(),
            final(self).shape() == old(self).shape(),
            told(old(self).fault(), final(self).fault(), r),
            old(self).shape().stable ==> {
                let slot = old(self).slots()[index as int];
                &&& r == Ok::<(), DslineError>(())
                &&& final(self).slots() == old(self).slots().update(
                    index as int,
                    SlotView { body: overwritten(slot.body, data@), ..slot },
                )
            },
    ;

    /// Frees a slot that is in the given state.
    fn release(&mut self, index: usize, state: SlotState) -> (r: Result<(), DslineError>)
        requires
            old(self).valid(),
            index < old(self).shape().capacity,
            state == SlotState::Pinned || state == SlotState::Committed,
        ensures
            final(self).valid(),
            final(self).shape() == old(self).shape(),
            told(old(self).fault(), final(self).fault(), r),
            old(self).shape().stable ==> {
                let slot = old(self).slots()[index as int];
                if slot.state == state {
                    &&& r == Ok::<(), DslineError>(())
                    &&& final(self).slots() == old(self).slots().update(
                        index as int,
                        slot.released(),
                    )
                } else {
                    &&& r == Err::<(), DslineError>(not_in_state(state))
                    &&& final(self).slots() == old(self).slots()
                }
            },
    ;
}

/// The error for a slot that is to be released and is not in the state for it.
pub open spec fn not_in_state(state: SlotState) -> DslineError {
    match state {
        SlotState::Pinned => DslineError::Channel(
            ChannelError::InvalidConfig("slot is not pinned"),
        ),
        _ => DslineError::Channel(ChannelError::InvalidConfig("slot is not committed")),
    }
}

/// A frame written to a slot is what is read from it, as long as the slot has room for it and its
/// length can be noted; pinning changes nothing of that, and a release leaves nothing of it.
pub proof fn law_slot_gives_back_its_frame(slot: SlotView, seq: u64, frame: Seq<u8>, len_range: nat)
    requires
        frame.len() <= slot.body.len(),
        frame.len() < len_range,
    ensures
        ({
            let written = slot.with_frame(SlotState::Committed, seq, frame, len_range);
            let pinned = written.in_state(SlotState::Pinned);
            &&& written.committed_frame() == Ok::<Seq<u8>, DslineError>(frame)
            &&& written.seq == seq
            &&& written.body.len() == slot.body.len()
            &&& pinned.data() == Ok::<Seq<u8>, DslineError>(frame)
            &&& pinned.released() == (SlotView {
                state: SlotState::Free,
                seq: 0,
                len: 0,
                body: zeros(slot.body.len()),
            })
        }),
{
    lemma_small_mod(frame.len(), len_range);
    assert(overwritten(slot.body, frame).take(frame.len() as int) =~= frame);
}

/// Only a committed slot has a frame to be read.
pub proof fn law_only_committed_slots_are_read(slot: SlotView)
    requires
        slot.state != SlotState::Committed,
    ensures
        slot.committed_frame() == Err::<Seq<u8>, DslineError>(
            DslineError::Channel(ChannelError::BufferEmpty),
        ),
{
}

/// A snapshot of a slot that holds these bytes is the state given, the number of the slot, how many
/// bytes there are, and the bytes.
pub proof fn law_snapshot_shows_the_bytes(
    snapshot: SlotSnapshot,
    slot: SlotView,
    state: SlotState,
    bytes: Seq<u8>,
)
    requires
        slot.state == SlotState::Committed,
        slot.len == bytes.len(),
        bytes.len() <= slot.body.len(),
        forall|i: int| 0 <= i < bytes.len() ==> slot.body[i] == #[trigger] bytes[i],
    ensures
        shows(snapshot, slot, state) <==> {
            &&& snapshot.state == state
            &&& snapshot.seq == slot.seq
            &&& snapshot.payload_len == bytes.len()
            &&& snapshot.data@ == bytes
        },
{
    assert(slot.body.take(bytes.len() as int) =~= bytes);
}

/// What is cleared is as long as asked for and zero throughout.
pub proof fn law_cleared_bytes_are_zero(len: nat, at: int)
    ensures
        zeros(len).len() == len,
        0 <= at < len ==> zeros(len)[at] == 0,
{
}

} // verus!
