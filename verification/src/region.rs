//! A region of slots whose states are kept in memory of this process.

use crate::error::{ChannelError, DslineError};
use crate::slot::{
    law_slot_gives_back_its_frame, no_such_slot, not_in_state, overwritten, shows, zeros,
    RegionShape, SlotRegion, SlotSnapshot, SlotState, SlotView,
};
use crate::storage::{
    can_allocate, fits_shape, storage_problem, told, FixedSlotStorage, MemorySlotStorage,
};
use vstd::arithmetic::div_mod::lemma_small_mod;
use vstd::prelude::*;

verus! {

/// What the region notes about a slot.
#[derive(Debug, Clone, Copy, PartialEq, Eq)]
pub struct FixedSlot {
    pub state: SlotState,
    pub seq: u64,
    pub payload_len: usize,
}

/// The note of a free slot.
pub open spec fn free_slot() -> FixedSlot {
    FixedSlot { state: SlotState::Free, seq: 0, payload_len: 0 }
}

/// Slots whose bytes lie in a storage and whose states lie here.
#[derive(Debug)]
pub struct FixedSlotRegion<S: FixedSlotStorage = MemorySlotStorage> {
    storage: S,
    slots: Vec<FixedSlot>,
}

impl FixedSlotRegion<MemorySlotStorage> {
    /// Free slots in memory, where the shape is possible.
    pub fn new(capacity: usize, slot_size: usize) -> (r: Result<Self, DslineError>)
        requires
            can_allocate(capacity, slot_size),
        ensures
            match storage_problem(capacity, slot_size) {
                Some(e) => r == Err::<Self, DslineError>(DslineError::Channel(e)),
                None => r matches Ok(region) && region.valid() && region.shape().stable
                    && region.shape().capacity == capacity && region.shape().frame_room == slot_size
                    && region.slots() == Seq::new(
                    capacity as nat,
                    |i: int|
                        SlotView {
                            state: SlotState::Free,
                            seq: 0,
                            len: 0,
                            body: zeros(slot_size as nat),
                        },
                ),
            },
    {
        match MemorySlotStorage::new(capacity, slot_size) {
            Err(e) => Err(e),
            Ok(storage) => {
                let r = Self::with_storage(storage);
                proof {
                    let slot = SlotView {
                        state: SlotState::Free,
                        seq: 0,
                        len: 0,
                        body: zeros(slot_size as nat),
                    };
                    assert(r->Ok_0.slots() =~= Seq::new(capacity as nat, |i: int| slot));
                }
                r
            },
        }
    }
}

impl<S: FixedSlotStorage> FixedSlotRegion<S> {
    /// What is noted about each slot.
    pub closed spec fn notes(&self) -> Seq<FixedSlot> {
        self.slots@
    }

    /// The storage that holds the bytes.
    pub closed spec fn backing(&self) -> S {
        self.storage
    }

    /// There is a note for each slot, and it tells what the slot holds.
    pub proof fn law_notes_describe_slots(&self)
        requires
            self.valid(),
        ensures
            self.notes().len() == self.shape().capacity,
            self.slots().len() == self.shape().capacity,
            forall|i: int|
                0 <= i < self.notes().len() ==> (#[trigger] self.slots()[i]).state
                    == self.notes()[i].state && self.slots()[i].seq == self.notes()[i].seq
                    && self.slots()[i].len == self.notes()[i].payload_len,
    {
    }

    /// The shape of a region is that of its storage. It has at least one slot of at least one byte,
    /// notes any length that a machine word can hold, and no noted length exceeds a slot.
    pub proof fn law_region_shape(&self)
        requires
            self.valid(),
        ensures
            self.backing().valid(),
            self.shape() == (RegionShape {
                capacity: self.backing().shape().capacity as nat,
                frame_room: self.backing().shape().slot_size as nat,
                len_range: usize::MAX as nat + 1,
                stable: self.backing().shape().stable,
            }),
            self.shape().capacity > 0,
            self.shape().frame_room > 0,
            forall|i: int|
                0 <= i < self.notes().len() ==> (#[trigger] self.notes()[i]).payload_len
                    <= self.shape().frame_room,
    {
    }

    /// Free slots over a storage that has at least one slot of at least one byte.
    pub fn with_storage(storage: S) -> (r: Result<Self, DslineError>)
        requires
            storage.valid(),
        ensures
            storage.shape().capacity == 0 ==> r == Err::<Self, DslineError>(
                DslineError::Channel(
                    ChannelError::InvalidConfig("capacity must be greater than zero"),
                ),
            ),
            storage.shape().capacity > 0 && storage.shape().slot_size == 0 ==> r == Err::<
                Self,
                DslineError,
            >(
                DslineError::Channel(
                    ChannelError::InvalidConfig("slot_size must be greater than zero"),
                ),
            ),
            storage.shape().capacity > 0 && storage.shape().slot_size > 0 ==> {
                &&& r matches Ok(region)
                &&& region.valid()
                &&& region.backing() == storage
                &&& region.fault() == storage.fault()
                &&& region.notes() == Seq::new(
                    storage.shape().capacity as nat,
                    |i: int| free_slot(),
                )
                &&& region.shape().capacity == storage.shape().capacity
                &&& region.shape().frame_room == storage.shape().slot_size
                &&& region.shape().len_range == usize::MAX as nat + 1
                &&& region.shape().stable == storage.shape().stable
                &&& region.slots() == Seq::new(
                    storage.shape().capacity as nat,
                    |i: int|
                        SlotView {
                            state: SlotState::Free,
                            seq: 0,
                            len: 0,
                            body: storage.contents()[i],
                        },
                )
            },
    {
        let capacity: usize = storage.capacity();
        if capacity == 0 {
            return Err(
                DslineError::Channel(
                    ChannelError::InvalidConfig("capacity must be greater than zero"),
                ),
            );
        }
        if storage.slot_size() == 0 {
            return Err(
                DslineError::Channel(
                    ChannelError::InvalidConfig("slot_size must be greater than zero"),
                ),
            );
        }
        let mut slots: Vec<FixedSlot> = Vec::new();
        while slots.len() < capacity
            invariant
                slots@.len() <= capacity,
                forall|i: int| 0 <= i < slots@.len() ==> #[trigger] slots@[i] == free_slot(),
            decreases capacity - slots@.len(),
        {
            slots.push(FixedSlot { state: SlotState::Free, seq: 0, payload_len: 0 });
        }
        let region = FixedSlotRegion { storage, slots };
        proof {
            assert(region.notes() =~= Seq::new(capacity as nat, |i: int| free_slot()));
            assert(region.slots() =~= Seq::new(
                capacity as nat,
                |i: int|
                    SlotView {
                        state: SlotState::Free,
                        seq: 0,
                        len: 0,
                        body: storage.contents()[i],
                    },
            ));
        }
        Ok(region)
    }

    pub fn capacity(&self) -> (capacity: usize)
        requires
            self.valid(),
        ensures
            capacity == self.shape().capacity,
    {
        self.storage.capacity()
    }

    pub fn slot_size(&self) -> (slot_size: usize)
        requires
            self.valid(),
        ensures
            slot_size == self.shape().frame_room,
    {
        self.storage.slot_size()
    }

    /// The state of a slot.
    pub fn state(&self, index: usize) -> (r: Result<SlotState, DslineError>)
        requires
            self.valid(),
        ensures
            r == if index < self.shape().capacity {
                Ok::<SlotState, DslineError>(self.notes()[index as int].state)
            } else {
                Err(no_such_slot())
            },
    {
        match self.slot(index) {
            Ok(slot) => Ok(slot.state),
            Err(e) => Err(e),
        }
    }

    /// Why a frame of the given length cannot be written to a slot, if it cannot.
    pub open spec fn write_refusal(&self, index: usize, len: nat) -> Option<DslineError> {
        if len > self.shape().frame_room {
            Some(
                DslineError::Channel(
                    ChannelError::MessageTooLarge {
                        len: len as usize,
                        slot_size: self.shape().frame_room as usize,
                    },
                ),
            )
        } else if index >= self.shape().capacity {
            Some(no_such_slot())
        } else if self.notes()[index as int].state != SlotState::Free {
            Some(DslineError::Channel(ChannelError::BufferFull))
        } else {
            None
        }
    }

    /// Writes a frame to a free slot. Where the storage fails, the slot is left as being written.
    pub fn write_committed(&mut self, index: usize, seq: u64, frame: &[u8]) -> (r: Result<
        (),
        DslineError,
    >)
        requires
            old(self).valid(),
        ensures
            final(self).valid(),
            final(self).shape() == old(self).shape(),
            told(old(self).fault(), final(self).fault(), r),
            match old(self).write_refusal(index, frame@.len()) {
                Some(e) => r == Err::<(), DslineError>(e) && *final(self) == *old(self),
                None => {
                    &&& final(self).notes() == old(self).notes().update(
                        index as int,
                        FixedSlot {
                            state: if r is Ok {
                                SlotState::Committed
                            } else {
                                SlotState::Writing
                            },
                            seq,
                            payload_len: frame@.len() as usize,
                        },
                    )
                    &&& old(self).shape().stable ==> r == Ok::<(), DslineError>(())
                    &&& old(self).shape().stable ==> final(self).slots() == old(
                        self,
                    ).slots().update(
                        index as int,
                        old(self).slots()[index as int].with_frame(
                            SlotState::Committed,
                            seq,
                            frame@,
                            old(self).shape().len_range,
                        ),
                    )
                },
            },
    {
        if frame.len() > self.storage.slot_size() {
            return Err(
                DslineError::Channel(
                    ChannelError::MessageTooLarge {
                        len: frame.len(),
                        slot_size: self.storage.slot_size(),
                    },
                ),
            );
        }
        match self.slot(index) {
            Err(e) => {
                return Err(e);
            },
            Ok(slot) => {
                if slot.state != SlotState::Free {
                    return Err(DslineError::Channel(ChannelError::BufferFull));
                }
            },
        }
        self.slots[index] = FixedSlot { state: SlotState::Writing, seq, payload_len: frame.len() };
        match self.storage.write_slot(index, frame) {
            Err(e) => {
                return Err(e);
            },
            Ok(()) => {},
        }
        self.slots[index] = FixedSlot {
            state: SlotState::Committed,
            seq,
            payload_len: frame.len(),
        };
        proof {
            if old(self).shape().stable {
                lemma_small_mod(frame@.len(), old(self).shape().len_range);
                assert(self.slots() =~= old(self).slots().update(
                    index as int,
                    old(self).slots()[index as int].with_frame(
                        SlotState::Committed,
                        seq,
                        frame@,
                        old(self).shape().len_range,
                    ),
                ));
            }
        }
        Ok(())
    }

    /// Why the frame of a slot cannot be read, as far as the region decides it.
    pub open spec fn read_refusal(&self, index: usize) -> Option<DslineError> {
        if index >= self.shape().capacity {
            Some(no_such_slot())
        } else if self.notes()[index as int].state != SlotState::Committed {
            Some(DslineError::Channel(ChannelError::BufferEmpty))
        } else {
            None
        }
    }

    /// Reads the frame of a committed slot and pins the slot.
    pub fn read_committed(&mut self, index: usize) -> (r: Result<SlotSnapshot, DslineError>)
        requires
            old(self).valid(),
        ensures
            final(self).valid(),
            final(self).shape() == old(self).shape(),
            told(old(self).fault(), final(self).fault(), r),
            old(self).unreadable(index) matches Some(e) ==> r == Err::<SlotSnapshot, DslineError>(
                e,
            ),
            match old(self).read_refusal(index) {
                Some(e) => r == Err::<SlotSnapshot, DslineError>(e) && *final(self) == *old(self),
                None => {
                    let note = old(self).notes()[index as int];
                    &&& r is Err ==> *final(self) == *old(self)
                    &&& r matches Ok(snapshot) ==> {
                        &&& snapshot.state == SlotState::Pinned
                        &&& snapshot.seq == note.seq
                        &&& snapshot.payload_len == note.payload_len
                        &&& snapshot.data@.len() == note.payload_len
                        &&& final(self).backing() == old(self).backing()
                        &&& final(self).notes() == old(self).notes().update(
                            index as int,
                            FixedSlot { state: SlotState::Pinned, ..note },
                        )
                    }
                    &&& old(self).shape().stable ==> {
                        let slot = old(self).slots()[index as int];
                        &&& r is Ok
                        &&& shows(r->Ok_0, slot, SlotState::Pinned)
                        &&& final(self).slots() == old(self).slots().update(
                            index as int,
                            slot.in_state(SlotState::Pinned),
                        )
                    }
                },
            },
    {
        let slot = match self.slot(index) {
            Ok(slot) => slot,
            Err(e) => {
                return Err(e);
            },
        };
        if slot.state != SlotState::Committed {
            return Err(DslineError::Channel(ChannelError::BufferEmpty));
        }
        let data = match self.storage.read_slot(index, slot.payload_len) {
            Ok(data) => data,
            Err(e) => {
                return Err(e);
            },
        };
        self.slots[index] = FixedSlot {
            state: SlotState::Pinned,
            seq: slot.seq,
            payload_len: slot.payload_len,
        };
        proof {
            if self.shape().stable {
                assert(self.slots() =~= old(self).slots().update(
                    index as int,
                    old(self).slots()[index as int].in_state(SlotState::Pinned),
                ));
            }
        }
        Ok(
            SlotSnapshot {
                state: SlotState::Pinned,
                seq: slot.seq,
                payload_len: slot.payload_len,
                data,
            },
        )
    }

    /// Reads the frame of a committed slot and leaves the slot as it is.
    pub fn peek_committed(&self, index: usize) -> (r: Result<SlotSnapshot, DslineError>)
        requires
            self.valid(),
        ensures
            self.unreadable(index) matches Some(e) ==> r == Err::<SlotSnapshot, DslineError>(e),
            match self.read_refusal(index) {
                Some(e) => r == Err::<SlotSnapshot, DslineError>(e),
                None => {
                    let note = self.notes()[index as int];
                    &&& r matches Ok(snapshot) ==> {
                        &&& snapshot.state == SlotState::Committed
                        &&& snapshot.seq == note.seq
                        &&& snapshot.payload_len == note.payload_len
                        &&& snapshot.data@.len() == note.payload_len
                    }
                    &&& self.shape().stable ==> r is Ok && shows(
                        r->Ok_0,
                        self.slots()[index as int],
                        SlotState::Committed,
                    )
                },
            },
    {
        let slot = match self.slot(index) {
            Ok(slot) => slot,
            Err(e) => {
                return Err(e);
            },
        };
        if slot.state != SlotState::Committed {
            return Err(DslineError::Channel(ChannelError::BufferEmpty));
        }
        match self.storage.read_slot(index, slot.payload_len) {
            Ok(data) => Ok(
                SlotSnapshot {
                    state: SlotState::Committed,
                    seq: slot.seq,
                    payload_len: slot.payload_len,
                    data,
                },
            ),
            Err(e) => Err(e),
        }
    }

    /// Why a slot cannot be released from the given state, as far as the region decides it.
    pub open spec fn release_refusal(&self, index: usize, state: SlotState) -> Option<DslineError> {
        if index >= self.shape().capacity {
            Some(no_such_slot())
        } else if self.notes()[index as int].state != state {
            Some(not_in_state(state))
        } else {
            None
        }
    }

    /// What a release that the region allows does: the slot is cleared, then noted as free.
    pub open spec fn release_effect(
        before: &Self,
        after: &Self,
        index: int,
        r: Result<(), DslineError>,
    ) -> bool {
        &&& after.notes() == if r is Ok {
            before.notes().update(index, free_slot())
        } else {
            before.notes()
        }
        &&& before.shape().stable ==> r == Ok::<(), DslineError>(())
        &&& before.shape().stable ==> after.slots() == before.slots().update(
            index,
            before.slots()[index].released(),
        )
    }

    /// Frees a pinned slot.
    pub fn release_pinned(&mut self, index: usize) -> (r: Result<(), DslineError>)
        requires
            old(self).valid(),
        ensures
            final(self).valid(),
            final(self).shape() == old(self).shape(),
            told(old(self).fault(), final(self).fault(), r),
            match old(self).release_refusal(index, SlotState::Pinned) {
                Some(e) => r == Err::<(), DslineError>(e) && *final(self) == *old(self),
                None => Self::release_effect(old(self), final(self), index as int, r),
            },
    {
        match self.slot(index) {
            Err(e) => {
                return Err(e);
            },
            Ok(slot) => {
                if slot.state != SlotState::Pinned {
                    return Err(
                        DslineError::Channel(ChannelError::InvalidConfig("slot is not pinned")),
                    );
                }
            },
        }
        self.release_slot(index)
    }

    /// Frees a committed slot.
    pub fn release_committed(&mut self, index: usize) -> (r: Result<(), DslineError>)
        requires
            old(self).valid(),
        ensures
            final(self).valid(),
            final(self).shape() == old(self).shape(),
            told(old(self).fault(), final(self).fault(), r),
            match old(self).release_refusal(index, SlotState::Committed) {
                Some(e) => r == Err::<(), DslineError>(e) && *final(self) == *old(self),
                None => Self::release_effect(old(self), final(self), index as int, r),
            },
    {
        match self.slot(index) {
            Err(e) => {
                return Err(e);
            },
            Ok(slot) => {
                if slot.state != SlotState::Committed {
                    return Err(
                        DslineError::Channel(ChannelError::InvalidConfig("slot is not committed")),
                    );
                }
            },
        }
        self.release_slot(index)
    }

    fn release_slot(&mut self, index: usize) -> (r: Result<(), DslineError>)
        requires
            old(self).valid(),
            index < old(self).shape().capacity,
        ensures
            final(self).valid(),
            final(self).shape() == old(self).shape(),
            told(old(self).fault(), final(self).fault(), r),
            Self::release_effect(old(self), final(self), index as int, r),
    {
        match self.storage.clear_slot(index) {
            Err(e) => {
                return Err(e);
            },
            Ok(()) => {},
        }
        self.slots[index] = FixedSlot { state: SlotState::Free, seq: 0, payload_len: 0 };
        proof {
            if old(self).shape().stable {
                assert(self.slots() =~= old(self).slots().update(
                    index as int,
                    old(self).slots()[index as int].released(),
                ));
            }
        }
        Ok(())
    }

    /// Notes a slot as corrupted, whatever its state.
    pub fn mark_corrupted(&mut self, index: usize) -> (r: Result<(), DslineError>)
        requires
            old(self).valid(),
        ensures
            final(self).valid(),
            final(self).shape() == old(self).shape(),
            told(old(self).fault(), final(self).fault(), r),
            final(self).backing() == old(self).backing(),
            if index < old(self).shape().capacity {
                &&& r == Ok::<(), DslineError>(())
                &&& final(self).notes() == old(self).notes().update(
                    index as int,
                    FixedSlot {
                        state: SlotState::Corrupted,
                        ..old(self).notes()[index as int]
                    },
                )
                &&& final(self).slots() == old(self).slots().update(
                    index as int,
                    old(self).slots()[index as int].in_state(SlotState::Corrupted),
                )
            } else {
                &&& r == Err::<(), DslineError>(no_such_slot())
                &&& *final(self) == *old(self)
            },
    {
        let slot = match self.slot(index) {
            Ok(slot) => slot,
            Err(e) => {
                return Err(e);
            },
        };
        self.slots[index] = FixedSlot {
            state: SlotState::Corrupted,
            seq: slot.seq,
            payload_len: slot.payload_len,
        };
        proof {
            assert(self.slots() =~= old(self).slots().update(
                index as int,
                old(self).slots()[index as int].in_state(SlotState::Corrupted),
            ));
        }
        Ok(())
    }

    /// What is noted about a slot.
    fn slot(&self, index: usize) -> (r: Result<FixedSlot, DslineError>)
        requires
            self.valid(),
        ensures
            r == if index < self.shape().capacity {
                Ok::<FixedSlot, DslineError>(self.notes()[index as int])
            } else {
                Err(no_such_slot())
            },
    {
        if index < self.slots.len() {
            Ok(self.slots[index])
        } else {
            Err(DslineError::Channel(ChannelError::InvalidConfig("slot index out of range")))
        }
    }
}

impl<S: FixedSlotStorage> SlotRegion for FixedSlotRegion<S> {
    closed spec fn valid(&self) -> bool {
        &&& self.storage.valid()
        &&& self.storage.shape().stable ==> fits_shape(
            self.storage.contents(),
            self.storage.shape(),
        )
        &&& self.storage.shape().capacity > 0
        &&& self.storage.shape().slot_size > 0
        &&& self.slots@.len() == self.storage.shape().capacity
        &&& forall|i: int|
            0 <= i < self.slots@.len() ==> #[trigger] self.slots@[i].payload_len
                <= self.storage.shape().slot_size
    }

    closed spec fn shape(&self) -> RegionShape {
        RegionShape {
            capacity: self.storage.shape().capacity as nat,
            frame_room: self.storage.shape().slot_size as nat,
            len_range: usize::MAX as nat + 1,
            stable: self.storage.shape().stable,
        }
    }

    closed spec fn slots(&self) -> Seq<SlotView> {
        Seq::new(
            self.slots@.len(),
            |i: int|
                SlotView {
                    state: self.slots@[i].state,
                    seq: self.slots@[i].seq,
                    len: self.slots@[i].payload_len as nat,
                    body: self.storage.contents()[i],
                },
        )
    }

    closed spec fn fault(&self) -> Option<DslineError> {
        self.storage.fault()
    }

    open spec fn unreadable(&self, index: usize) -> Option<DslineError> {
        if self.read_refusal(index) is None {
            self.backing().unreadable(index)
        } else {
            None
        }
    }

    open spec fn hidden(&self, index: usize) -> Option<DslineError> {
        None
    }

    proof fn lemma_shape(&self) {
    }

    fn slot_header(&self, index: usize) -> (r: Result<(SlotState, u64), DslineError>) {
        match self.slot(index) {
            Ok(slot) => Ok((slot.state, slot.seq)),
            Err(e) => Err(e),
        }
    }

    fn commit(&mut self, index: usize, seq: u64, frame: &[u8]) -> (r: Result<(), DslineError>) {
        self.write_committed(index, seq, frame)
    }

    fn pin(&mut self, index: usize) -> (r: Result<SlotSnapshot, DslineError>) {
        self.read_committed(index)
    }

    fn peek(&self, index: usize) -> (r: Result<SlotSnapshot, DslineError>) {
        self.peek_committed(index)
    }

    fn rewrite(&mut self, index: usize, data: &[u8]) -> (r: Result<(), DslineError>) {
        let r = self.storage.write_slot(index, data);
        proof {
            if old(self).shape().stable {
                let slot = old(self).slots()[index as int];
                assert(self.slots() =~= old(self).slots().update(
                    index as int,
                    SlotView { body: overwritten(slot.body, data@), ..slot },
                ));
            }
        }
        r
    }

    fn release(&mut self, index: usize, state: SlotState) -> (r: Result<(), DslineError>) {
        match state {
            SlotState::Pinned => self.release_pinned(index),
            _ => self.release_committed(index),
        }
    }
}

impl FixedSlotRegion<MemorySlotStorage> {
    /// A region in memory is stable.
    pub proof fn law_memory_region_is_stable(&self)
        requires
            self.valid(),
        ensures
            self.shape().stable,
            self.shape().len_range == usize::MAX as nat + 1,
    {
        self.storage.law_memory_is_stable();
    }

    /// In memory a frame is written exactly where it fits and the slot is there and free. It is
    /// then what is read from the slot, with its number and its length.
    pub proof fn law_written_frame_can_be_read(&self, index: usize, seq: u64, frame: Seq<u8>)
        requires
            self.valid(),
        ensures
            self.shape().stable,
            self.write_refusal(index, frame.len()) is None <==> frame.len()
                <= self.shape().frame_room && index < self.shape().capacity
                && self.slots()[index as int].state == SlotState::Free,
            self.write_refusal(index, frame.len()) is None ==> {
                let slot = self.slots()[index as int].with_frame(
                    SlotState::Committed,
                    seq,
                    frame,
                    self.shape().len_range,
                );
                &&& slot.committed_frame() == Ok::<Seq<u8>, DslineError>(frame)
                &&& slot.seq == seq
                &&& slot.len == frame.len()
            },
    {
        self.law_memory_region_is_stable();
        self.law_notes_describe_slots();
        if self.write_refusal(index, frame.len()) is None {
            let slot = self.slots()[index as int];
            lemma_small_mod(frame.len(), self.shape().len_range);
            law_slot_gives_back_its_frame(slot, seq, frame, self.shape().len_range);
        }
    }

    /// In memory exactly the committed slots can be read, and what is seen of a slot without
    /// pinning it is what is read when it is pinned.
    pub proof fn law_peek_shows_what_is_read(
        &self,
        index: usize,
        seen: SlotSnapshot,
        read: SlotSnapshot,
    )
        requires
            self.valid(),
            index < self.shape().capacity,
        ensures
            self.shape().stable,
            self.read_refusal(index) == if self.slots()[index as int].state
                == SlotState::Committed {
                None
            } else {
                Some(DslineError::Channel(ChannelError::BufferEmpty))
            },
            shows(seen, self.slots()[index as int], SlotState::Committed) && shows(
                read,
                self.slots()[index as int],
                SlotState::Pinned,
            ) ==> read.seq == seen.seq && read.payload_len == seen.payload_len && read.data@
                == seen.data@,
    {
        self.law_memory_region_is_stable();
        self.law_notes_describe_slots();
    }

    /// In memory exactly the pinned slots can be released as pinned. The slot is free afterwards,
    /// all others are as before, and any frame that fits can be written to it.
    pub proof fn law_released_slot_can_be_written(
        before: &Self,
        after: &Self,
        index: usize,
        r: Result<(), DslineError>,
        len: nat,
    )
        requires
            before.valid(),
            after.valid(),
            after.shape() == before.shape(),
            index < before.shape().capacity,
            before.release_refusal(index, SlotState::Pinned) is None ==> Self::release_effect(
                before,
                after,
                index as int,
                r,
            ),
            len <= before.shape().frame_room,
        ensures
            before.release_refusal(
                index,
                SlotState::Pinned,
            ) == if before.slots()[index as int].state == SlotState::Pinned {
                None
            } else {
                Some(
                    DslineError::Channel(ChannelError::InvalidConfig("slot is not pinned")),
                )
            },
            before.slots()[index as int].state == SlotState::Pinned ==> {
                &&& r == Ok::<(), DslineError>(())
                &&& after.slots()[index as int].state == SlotState::Free
                &&& forall|j: int|
                    0 <= j < before.shape().capacity && j != index ==> #[trigger] after.slots()[j]
                        == before.slots()[j]
                &&& after.write_refusal(index, len) is None
            },
    {
        before.law_memory_region_is_stable();
        before.law_notes_describe_slots();
        after.law_notes_describe_slots();
    }
}

impl<S: FixedSlotStorage> FixedSlotRegion<S> {
    /// What a region refuses, and why: a frame that is too long before a slot that is not there,
    /// and that before a slot in another state.
    pub proof fn law_region_refuses_for_a_reason(&self, index: usize, len: nat)
        requires
            self.valid(),
        ensures
            len > self.shape().frame_room ==> self.write_refusal(index, len) == Some(
                DslineError::Channel(
                    ChannelError::MessageTooLarge {
                        len: len as usize,
                        slot_size: self.shape().frame_room as usize,
                    },
                ),
            ),
            index >= self.shape().capacity ==> {
                let missing = DslineError::Channel(
                    ChannelError::InvalidConfig("slot index out of range"),
                );
                &&& len <= self.shape().frame_room ==> self.write_refusal(index, len) == Some(
                    missing,
                )
                &&& self.read_refusal(index) == Some(missing)
                &&& self.release_refusal(index, SlotState::Pinned) == Some(missing)
                &&& self.release_refusal(index, SlotState::Committed) == Some(missing)
            },
            index < self.shape().capacity ==> {
                let state = self.notes()[index as int].state;
                &&& len <= self.shape().frame_room ==> self.write_refusal(index, len) == if state
                    == SlotState::Free {
                    None
                } else {
                    Some(DslineError::Channel(ChannelError::BufferFull))
                }
                &&& self.read_refusal(index) == if state == SlotState::Committed {
                    None
                } else {
                    Some(DslineError::Channel(ChannelError::BufferEmpty))
                }
                &&& self.release_refusal(index, SlotState::Pinned) == if state
                    == SlotState::Pinned {
                    None
                } else {
                    Some(DslineError::Channel(ChannelError::InvalidConfig("slot is not pinned")))
                }
                &&& self.release_refusal(index, SlotState::Committed) == if state
                    == SlotState::Committed {
                    None
                } else {
                    Some(
                        DslineError::Channel(ChannelError::InvalidConfig("slot is not committed")),
                    )
                }
            },
    {
    }
}

} // verus!
