//! Slots whose states are kept in the storage itself, and a channel over them.

use crate::bytes::{
    copy_range, le_at, le_bytes, lemma_byte_ranges, lemma_le_at, lemma_le_bytes_len,
    lemma_le_value_range, push_u32, push_u64, read_u32, read_u64,
};
use crate::error::{ChannelError, DslineError};
use crate::slot::{
    no_such_slot, not_in_state, overwritten, shows, zeros, RegionShape, SlotRegion, SlotSnapshot,
    SlotState, SlotView,
};
use crate::storage::{fits_shape, told, FixedSlotStorage, MemorySlotStorage};
use vstd::prelude::*;

verus! {

/// How many bytes of a slot tell its state, its sequence number and its length.
pub const PERSISTENT_SLOT_HEADER_LEN: usize = 13;

/// One more than the largest length that a slot header can tell.
pub const SLOT_LEN_RANGE: u64 = 0x1_0000_0000;

impl SlotState {
    /// The byte that stands for a state.
    pub open spec fn spec_code(self) -> u8 {
        match self {
            SlotState::Free => 0,
            SlotState::Writing => 1,
            SlotState::Committed => 2,
            SlotState::Pinned => 3,
            SlotState::Corrupted => 4,
        }
    }

    /// The byte that stands for this state.
    pub fn code(self) -> (code: u8)
        ensures
            code == self.spec_code(),
    {
        match self {
            SlotState::Free => 0,
            SlotState::Writing => 1,
            SlotState::Committed => 2,
            SlotState::Pinned => 3,
            SlotState::Corrupted => 4,
        }
    }

    /// The state that a byte stands for. A byte that stands for none is damage.
    pub open spec fn spec_from_code(code: u8) -> SlotState {
        if code == 0 {
            SlotState::Free
        } else if code == 1 {
            SlotState::Writing
        } else if code == 2 {
            SlotState::Committed
        } else if code == 3 {
            SlotState::Pinned
        } else {
            SlotState::Corrupted
        }
    }

    /// The state that a byte stands for. A byte that stands for none is damage.
    pub fn from_code(code: u8) -> (state: SlotState)
        ensures
            state == SlotState::spec_from_code(code),
    {
        match code {
            0 => SlotState::Free,
            1 => SlotState::Writing,
            2 => SlotState::Committed,
            3 => SlotState::Pinned,
            _ => SlotState::Corrupted,
        }
    }
}

/// A slot header as bytes: state, sequence number, length of the frame.
pub open spec fn slot_header_bytes(state: SlotState, seq: u64, len: nat) -> Seq<u8> {
    seq![state.spec_code()] + le_bytes(seq as nat, 8) + le_bytes(len % SLOT_LEN_RANGE as nat, 4)
}

/// What the bytes of a slot say: header first, then the frame area.
pub open spec fn slot_of(bytes: Seq<u8>) -> SlotView {
    SlotView {
        state: SlotState::spec_from_code(bytes[0]),
        seq: le_at(bytes, 1, 8) as u64,
        len: le_at(bytes, 9, 4),
        body: bytes.skip(PERSISTENT_SLOT_HEADER_LEN as int),
    }
}

/// What the bytes of each slot say.
pub open spec fn slots_of(contents: Seq<Seq<u8>>) -> Seq<SlotView> {
    contents.map_values(|bytes: Seq<u8>| slot_of(bytes))
}

/// A slot says what its header was written to say, up to the range of the length.
pub proof fn law_slot_header_round_trip(state: SlotState, seq: u64, len: nat, body: Seq<u8>)
    ensures
        slot_header_bytes(state, seq, len).len() == PERSISTENT_SLOT_HEADER_LEN,
        slot_of(slot_header_bytes(state, seq, len) + body) == (SlotView {
            state,
            seq,
            len: len % SLOT_LEN_RANGE as nat,
            body,
        }),
{
    let short = len % SLOT_LEN_RANGE as nat;
    let code = seq![state.spec_code()];
    let bytes = slot_header_bytes(state, seq, len) + body;
    lemma_byte_ranges();
    lemma_le_bytes_len(seq as nat, 8);
    lemma_le_bytes_len(short, 4);
    assert(bytes =~= code + le_bytes(seq as nat, 8) + (le_bytes(short, 4) + body));
    lemma_le_at(code, seq as nat, 8, le_bytes(short, 4) + body);
    assert(bytes =~= (code + le_bytes(seq as nat, 8)) + le_bytes(short, 4) + body);
    lemma_le_at(code + le_bytes(seq as nat, 8), short, 4, body);
    assert(bytes.skip(PERSISTENT_SLOT_HEADER_LEN as int) =~= body);
}

/// Checks that a slot of this size has room for more than a header.
pub fn validate_slot_size(slot_size: usize) -> (r: Result<(), DslineError>)
    ensures
        r == if slot_size > PERSISTENT_SLOT_HEADER_LEN {
            Ok::<(), DslineError>(())
        } else {
            Err(no_frame_room())
        },
{
    if slot_size <= PERSISTENT_SLOT_HEADER_LEN {
        return Err(
            DslineError::Channel(
                ChannelError::InvalidConfig(
                    "slot_size must be greater than persistent header size",
                ),
            ),
        );
    }
    Ok(())
}

/// The error for slots that have room for no more than a header.
pub open spec fn no_frame_room() -> DslineError {
    DslineError::Channel(
        ChannelError::InvalidConfig("slot_size must be greater than persistent header size"),
    )
}

/// Slots in a storage, each with its header, so that another process can read them too.
#[derive(Debug)]
pub struct PersistentSlotRegion<S: FixedSlotStorage> {
    storage: S,
    /// What a slot header leaves of a slot.
    frame_capacity: usize,
}

impl<S: FixedSlotStorage> PersistentSlotRegion<S> {
    /// The storage.
    pub closed spec fn backing(&self) -> S {
        self.storage
    }

    /// The slots of a storage, where they have room for more than a header.
    pub fn with_storage(storage: S) -> (r: Result<Self, DslineError>)
        requires
            storage.valid(),
        ensures
            if storage.shape().slot_size <= PERSISTENT_SLOT_HEADER_LEN {
                r == Err::<Self, DslineError>(no_frame_room())
            } else {
                &&& r matches Ok(region)
                &&& region.valid()
                &&& region.backing() == storage
                &&& region.shape() == (RegionShape {
                    capacity: storage.shape().capacity as nat,
                    frame_room: (storage.shape().slot_size - PERSISTENT_SLOT_HEADER_LEN) as nat,
                    len_range: SLOT_LEN_RANGE as nat,
                    stable: storage.shape().stable,
                })
                &&& region.slots() == slots_of(storage.contents())
                &&& region.fault() == storage.fault()
            },
    {
        let slot_size: usize = storage.slot_size();
        match validate_slot_size(slot_size) {
            Err(e) => {
                return Err(e);
            },
            Ok(()) => {},
        }
        Ok(
            PersistentSlotRegion {
                storage,
                frame_capacity: slot_size - PERSISTENT_SLOT_HEADER_LEN,
            },
        )
    }

    pub fn capacity(&self) -> (capacity: usize)
        requires
            self.valid(),
        ensures
            capacity == self.shape().capacity,
    {
        self.storage.capacity()
    }

    /// How many bytes a slot has, its header included.
    pub fn slot_size(&self) -> (size: usize)
        requires
            self.valid(),
        ensures
            size == self.shape().frame_room + PERSISTENT_SLOT_HEADER_LEN,
    {
        self.storage.slot_size()
    }

    /// How many bytes of frame fit in a slot.
    pub fn frame_capacity(&self) -> (size: usize)
        requires
            self.valid(),
        ensures
            size == self.shape().frame_room,
    {
        self.frame_capacity
    }

    /// The header of a slot as it lies in the storage.
    fn raw_header(&self, index: usize) -> (r: Result<Vec<u8>, DslineError>)
        requires
            self.valid(),
        ensures
            self.unreadable(index) matches Some(e) ==> r == Err::<Vec<u8>, DslineError>(e),
            r matches Ok(raw) ==> raw@.len() == PERSISTENT_SLOT_HEADER_LEN,
            index >= self.shape().capacity ==> r == Err::<Vec<u8>, DslineError>(no_such_slot()),
            self.shape().stable && index < self.shape().capacity ==> r is Ok && r->Ok_0@
                == self.backing().contents()[index as int].take(PERSISTENT_SLOT_HEADER_LEN as int),
    {
        if index >= self.storage.capacity() {
            return Err(
                DslineError::Channel(ChannelError::InvalidConfig("slot index out of range")),
            );
        }
        self.storage.read_slot(index, PERSISTENT_SLOT_HEADER_LEN)
    }

    /// The state, the sequence number and the length that a slot header tells.
    pub fn read_header(&self, index: usize) -> (r: Result<(SlotState, u64, usize), DslineError>)
        requires
            self.valid(),
        ensures
            self.unreadable(index) matches Some(e) ==> r == Err::<
                (SlotState, u64, usize),
                DslineError,
            >(e),
            index >= self.shape().capacity ==> r == Err::<(SlotState, u64, usize), DslineError>(
                no_such_slot(),
            ),
            self.shape().stable && index < self.shape().capacity ==> {
                let slot = self.slots()[index as int];
                r matches Ok(header) && header.0 == slot.state && header.1 == slot.seq && header.2
                    == slot.len
            },
    {
        let raw = match self.raw_header(index) {
            Ok(raw) => raw,
            Err(e) => {
                return Err(e);
            },
        };
        let state = SlotState::from_code(raw[0]);
        let seq: u64 = read_u64(raw.as_slice(), 1);
        let payload_len: usize = read_u32(raw.as_slice(), 9) as usize;
        proof {
            if self.shape().stable {
                let bytes = self.storage.contents()[index as int];
                assert(raw@.subrange(1, 9) =~= bytes.subrange(1, 9));
                assert(raw@.subrange(9, 13) =~= bytes.subrange(9, 13));
            }
        }
        Ok((state, seq, payload_len))
    }

    /// A slot header as bytes.
    fn header_bytes(state: SlotState, seq: u64, payload_len: usize) -> (out: Vec<u8>)
        ensures
            out@ == slot_header_bytes(state, seq, payload_len as nat),
            out@.len() == PERSISTENT_SLOT_HEADER_LEN,
    {
        let mut out: Vec<u8> = Vec::new();
        out.push(state.code());
        push_u64(&mut out, seq);
        push_u32(&mut out, (payload_len as u64 % SLOT_LEN_RANGE) as u32);
        proof {
            law_slot_header_round_trip(state, seq, payload_len as nat, seq![]);
            assert(out@ =~= slot_header_bytes(state, seq, payload_len as nat));
        }
        out
    }

    /// Rewrites the bytes of a slot from its start and nothing else.
    fn write_bytes(&mut self, index: usize, bytes: &[u8]) -> (r: Result<(), DslineError>)
        requires
            old(self).valid(),
            index < old(self).shape().capacity,
            bytes@.len() <= old(self).shape().frame_room + PERSISTENT_SLOT_HEADER_LEN,
        ensures
            final(self).valid(),
            final(self).shape() == old(self).shape(),
            told(old(self).fault(), final(self).fault(), r),
            old(self).shape().stable ==> {
                let slot = overwritten(old(self).backing().contents()[index as int], bytes@);
                &&& r == Ok::<(), DslineError>(())
                &&& final(self).backing().contents() == old(self).backing().contents().update(
                    index as int,
                    slot,
                )
                &&& final(self).slots() == old(self).slots().update(index as int, slot_of(slot))
            },
    {
        let r = self.storage.write_slot(index, bytes);
        proof {
            if old(self).shape().stable {
                let slot = overwritten(old(self).storage.contents()[index as int], bytes@);
                assert(self.slots() =~= old(self).slots().update(index as int, slot_of(slot)));
            }
        }
        r
    }

    /// Writes a slot header.
    fn write_header(
        &mut self,
        index: usize,
        state: SlotState,
        seq: u64,
        payload_len: usize,
    ) -> (r: Result<(), DslineError>)
        requires
            old(self).valid(),
            index < old(self).shape().capacity,
        ensures
            final(self).valid(),
            final(self).shape() == old(self).shape(),
            told(old(self).fault(), final(self).fault(), r),
            old(self).shape().stable ==> r == Ok::<(), DslineError>(()),
            old(self).shape().stable ==> final(self).slots() == old(self).slots().update(
                index as int,
                SlotView {
                    state,
                    seq,
                    len: payload_len as nat % SLOT_LEN_RANGE as nat,
                    body: old(self).slots()[index as int].body,
                },
            ),
    {
        let header = Self::header_bytes(state, seq, payload_len);
        proof {
            if self.shape().stable {
                let bytes = self.storage.contents()[index as int];
                law_slot_header_round_trip(
                    state,
                    seq,
                    payload_len as nat,
                    bytes.skip(PERSISTENT_SLOT_HEADER_LEN as int),
                );
            }
        }
        self.write_bytes(index, header.as_slice())
    }

    /// Writes a header and, behind it, the first bytes of the frame area.
    fn write_header_and_frame(&mut self, index: usize, header: Vec<u8>, frame: &[u8]) -> (r: Result<
        (),
        DslineError,
    >)
        requires
            old(self).valid(),
            index < old(self).shape().capacity,
            header@.len() == PERSISTENT_SLOT_HEADER_LEN,
            frame@.len() <= old(self).shape().frame_room,
        ensures
            final(self).valid(),
            final(self).shape() == old(self).shape(),
            told(old(self).fault(), final(self).fault(), r),
            old(self).shape().stable ==> r == Ok::<(), DslineError>(()),
            old(self).shape().stable ==> final(self).slots() == old(self).slots().update(
                index as int,
                slot_of(header@ + overwritten(old(self).slots()[index as int].body, frame@)),
            ),
    {
        let mut bytes = header;
        bytes.extend_from_slice(frame);
        proof {
            assert(bytes@ =~= header@ + frame@);
            if self.shape().stable {
                let slot = self.storage.contents()[index as int];
                assert(overwritten(slot, bytes@) =~= header@ + overwritten(
                    self.slots()[index as int].body,
                    frame@,
                ));
            }
        }
        self.write_bytes(index, bytes.as_slice())
    }

    /// Reads the first bytes of a slot's frame area.
    fn read_payload(&self, index: usize, len: usize) -> (r: Result<Vec<u8>, DslineError>)
        requires
            self.valid(),
            index < self.shape().capacity,
        ensures
            len <= self.shape().frame_room ==> (self.unreadable(index) matches Some(e) ==> r
                == Err::<Vec<u8>, DslineError>(e)),
            r matches Ok(data) ==> data@.len() == len <= self.shape().frame_room,
            len > self.shape().frame_room ==> r == Err::<Vec<u8>, DslineError>(
                DslineError::Channel(
                    ChannelError::MessageTooLarge {
                        len,
                        slot_size: self.shape().frame_room as usize,
                    },
                ),
            ),
            self.shape().stable && len <= self.shape().frame_room ==> r is Ok && r->Ok_0@
                == self.slots()[index as int].body.take(len as int),
    {
        if len > self.frame_capacity {
            return Err(
                DslineError::Channel(
                    ChannelError::MessageTooLarge { len, slot_size: self.frame_capacity },
                ),
            );
        }
        match self.storage.read_slot(index, PERSISTENT_SLOT_HEADER_LEN + len) {
            Err(e) => Err(e),
            Ok(bytes) => {
                let data = copy_range(bytes.as_slice(), PERSISTENT_SLOT_HEADER_LEN, bytes.len());
                proof {
                    if self.shape().stable {
                        assert(data@ =~= self.slots()[index as int].body.take(len as int));
                    }
                }
                Ok(data)
            },
        }
    }

    /// The state of a slot.
    pub fn state(&self, index: usize) -> (r: Result<SlotState, DslineError>)
        requires
            self.valid(),
        ensures
            self.unreadable(index) matches Some(e) ==> r == Err::<SlotState, DslineError>(e),
            index >= self.shape().capacity ==> r == Err::<SlotState, DslineError>(no_such_slot()),
            self.shape().stable && index < self.shape().capacity ==> r == Ok::<
                SlotState,
                DslineError,
            >(self.slots()[index as int].state),
    {
        match self.read_header(index) {
            Ok((state, _, _)) => Ok(state),
            Err(e) => Err(e),
        }
    }

    /// What writing a frame to a slot does: the slots afterwards, and the error if there is one.
    /// The slot is marked as being written before the length of the frame is looked at.
    pub open spec fn written(&self, index: int, seq: u64, frame: Seq<u8>) -> (
        Seq<SlotView>,
        Result<(), DslineError>,
    ) {
        let slot = self.slots()[index];
        let range = self.shape().len_range;
        if index >= self.shape().capacity {
            (self.slots(), Err(no_such_slot()))
        } else if slot.state != SlotState::Free {
            (self.slots(), Err(DslineError::Channel(ChannelError::BufferFull)))
        } else if frame.len() > self.shape().frame_room {
            (
                self.slots().update(
                    index,
                    SlotView {
                        state: SlotState::Writing,
                        seq,
                        len: frame.len() % range,
                        body: slot.body,
                    },
                ),
                Err(
                    DslineError::Channel(
                        ChannelError::MessageTooLarge {
                            len: frame.len() as usize,
                            slot_size: self.shape().frame_room as usize,
                        },
                    ),
                ),
            )
        } else {
            (
                self.slots().update(
                    index,
                    slot.with_frame(SlotState::Committed, seq, frame, range),
                ),
                Ok(()),
            )
        }
    }

    /// Writes a frame to a free slot: marks it as being written, writes the frame, commits.
    pub fn write_committed(&mut self, index: usize, seq: u64, frame: &[u8]) -> (r: Result<
        (),
        DslineError,
    >)
        requires
            old(self).valid(),
        ensures
            final(self).valid(),
            final(self).shape() == old(self).shape(),
            told(old(self).fault(), final(self).fault(), r),
            old(self).unreadable(index) matches Some(e) ==> r == Err::<(), DslineError>(e),
            index >= old(self).shape().capacity ==> r == Err::<(), DslineError>(no_such_slot())
                && *final(self) == *old(self),
            old(self).shape().stable ==> (final(self).slots(), r) == old(self).written(
                index as int,
                seq,
                frame@,
            ),
    {
        match self.read_header(index) {
            Err(e) => {
                return Err(e);
            },
            Ok((state, _, _)) => {
                if state != SlotState::Free {
                    return Err(DslineError::Channel(ChannelError::BufferFull));
                }
            },
        }
        match self.write_header(index, SlotState::Writing, seq, frame.len()) {
            Err(e) => {
                return Err(e);
            },
            Ok(()) => {},
        }
        if frame.len() > self.frame_capacity {
            return Err(
                DslineError::Channel(
                    ChannelError::MessageTooLarge {
                        len: frame.len(),
                        slot_size: self.frame_capacity,
                    },
                ),
            );
        }
        proof {
            if self.shape().stable {
                law_slot_header_round_trip(
                    SlotState::Writing,
                    seq,
                    frame@.len(),
                    overwritten(old(self).slots()[index as int].body, frame@),
                );
            }
        }
        let header = Self::header_bytes(SlotState::Writing, seq, frame.len());
        match self.write_header_and_frame(index, header, frame) {
            Err(e) => {
                return Err(e);
            },
            Ok(()) => {},
        }
        let r = self.write_header(index, SlotState::Committed, seq, frame.len());
        proof {
            if old(self).shape().stable {
                assert(self.slots() =~= old(self).written(index as int, seq, frame@).0);
            }
        }
        r
    }

    /// Reads the frame of a committed slot and pins the slot.
    pub fn read_committed(&mut self, index: usize) -> (r: Result<SlotSnapshot, DslineError>)
        requires
            old(self).valid(),
        ensures
            final(self).valid(),
            final(self).shape() == old(self).shape(),
            told(old(self).fault(), final(self).fault(), r),
            old(self).unreadable(index) matches Some(e) ==> r == Err::<SlotSnapshot, DslineError>(
                e,
            ),
            index >= old(self).shape().capacity ==> r == Err::<SlotSnapshot, DslineError>(
                no_such_slot(),
            ) && *final(self) == *old(self),
            old(self).shape().stable && index < old(self).shape().capacity ==> {
                let slot = old(self).slots()[index as int];
                match slot.committed_frame() {
                    Ok(_) => {
                        &&& r matches Ok(snapshot) && shows(snapshot, slot, SlotState::Pinned)
                        &&& final(self).slots() == old(self).slots().update(
                            index as int,
                            slot.in_state(SlotState::Pinned),
                        )
                    },
                    Err(e) => {
                        &&& r == Err::<SlotSnapshot, DslineError>(e)
                        &&& final(self).slots() == old(self).slots()
                    },
                }
            },
    {
        let snapshot = match self.peek_committed(index) {
            Ok(snapshot) => snapshot,
            Err(e) => {
                return Err(e);
            },
        };
        match self.write_header(index, SlotState::Pinned, snapshot.seq, snapshot.payload_len) {
            Err(e) => {
                return Err(e);
            },
            Ok(()) => {},
        }
        proof {
            if old(self).shape().stable {
                let slot = old(self).slots()[index as int];
                lemma_slot_len(old(self).storage.contents()[index as int]);
                assert(self.slots() =~= old(self).slots().update(
                    index as int,
                    slot.in_state(SlotState::Pinned),
                ));
            }
        }
        Ok(
            SlotSnapshot {
                state: SlotState::Pinned,
                seq: snapshot.seq,
                payload_len: snapshot.payload_len,
                data: snapshot.data,
            },
        )
    }

    /// Reads the frame of a committed slot and leaves the slot as it is.
    pub fn peek_committed(&self, index: usize) -> (r: Result<SlotSnapshot, DslineError>)
        requires
            self.valid(),
        ensures
            self.unreadable(index) matches Some(e) ==> r == Err::<SlotSnapshot, DslineError>(e),
            r matches Ok(snapshot) ==> snapshot.state == SlotState::Committed
                && snapshot.data@.len() == snapshot.payload_len <= self.shape().frame_room && index
                < self.shape().capacity,
            index >= self.shape().capacity ==> r == Err::<SlotSnapshot, DslineError>(
                no_such_slot(),
            ),
            self.shape().stable && index < self.shape().capacity ==> {
                let slot = self.slots()[index as int];
                match slot.committed_frame() {
                    Ok(_) => r matches Ok(snapshot) && shows(snapshot, slot, SlotState::Committed),
                    Err(e) => r == Err::<SlotSnapshot, DslineError>(e),
                }
            },
    {
        let (state, seq, payload_len): (SlotState, u64, usize) = match self.read_header(index) {
            Ok(header) => header,
            Err(e) => {
                return Err(e);
            },
        };
        if state != SlotState::Committed {
            return Err(DslineError::Channel(ChannelError::BufferEmpty));
        }
        match self.read_payload(index, payload_len) {
            Ok(data) => Ok(
                SlotSnapshot { state: SlotState::Committed, seq, payload_len, data },
            ),
            Err(e) => Err(e),
        }
    }

    /// What releasing a slot does where the storage is stable: the slots afterwards, and the error
    /// if there is one.
    pub open spec fn released(&self, index: int, state: SlotState) -> (
        Seq<SlotView>,
        Result<(), DslineError>,
    ) {
        if index >= self.shape().capacity {
            (self.slots(), Err(no_such_slot()))
        } else if self.slots()[index].state != state {
            (self.slots(), Err(not_in_state(state)))
        } else {
            (self.slots().update(index, self.slots()[index].released()), Ok(()))
        }
    }

    /// Frees a pinned slot.
    pub fn release_pinned(&mut self, index: usize) -> (r: Result<(), DslineError>)
        requires
            old(self).valid(),
        ensures
            final(self).valid(),
            final(self).shape() == old(self).shape(),
            told(old(self).fault(), final(self).fault(), r),
            old(self).unreadable(index) matches Some(e) ==> r == Err::<(), DslineError>(e),
            index >= old(self).shape().capacity ==> r == Err::<(), DslineError>(no_such_slot())
                && *final(self) == *old(self),
            old(self).shape().stable ==> (final(self).slots(), r) == old(self).released(
                index as int,
                SlotState::Pinned,
            ),
    {
        match self.read_header(index) {
            Err(e) => {
                return Err(e);
            },
            Ok((state, _, _)) => {
                if state != SlotState::Pinned {
                    return Err(
                        DslineError::Channel(ChannelError::InvalidConfig("slot is not pinned")),
                    );
                }
            },
        }
        self.release_slot(index)
    }

    /// Frees a committed slot.
    pub fn release_committed(&mut self, index: usize) -> (r: Result<(), DslineError>)
        requires
            old(self).valid(),
        ensures
            final(self).valid(),
            final(self).shape() == old(self).shape(),
            told(old(self).fault(), final(self).fault(), r),
            old(self).unreadable(index) matches Some(e) ==> r == Err::<(), DslineError>(e),
            index >= old(self).shape().capacity ==> r == Err::<(), DslineError>(no_such_slot())
                && *final(self) == *old(self),
            old(self).shape().stable ==> (final(self).slots(), r) == old(self).released(
                index as int,
                SlotState::Committed,
            ),
    {
        match self.read_header(index) {
            Err(e) => {
                return Err(e);
            },
            Ok((state, _, _)) => {
                if state != SlotState::Committed {
                    return Err(
                        DslineError::Channel(ChannelError::InvalidConfig("slot is not committed")),
                    );
                }
            },
        }
        self.release_slot(index)
    }

    /// Clears the frame area of a slot, then marks the slot as free.
    fn release_slot(&mut self, index: usize) -> (r: Result<(), DslineError>)
        requires
            old(self).valid(),
            index < old(self).shape().capacity,
        ensures
            final(self).valid(),
            final(self).shape() == old(self).shape(),
            told(old(self).fault(), final(self).fault(), r),
            old(self).shape().stable ==> r == Ok::<(), DslineError>(()),
            old(self).shape().stable ==> final(self).slots() == old(self).slots().update(
                index as int,
                old(self).slots()[index as int].released(),
            ),
    {
        let header = match self.raw_header(index) {
            Ok(header) => header,
            Err(e) => {
                return Err(e);
            },
        };
        let zeroed: Vec<u8> = cleared_bytes(self.frame_capacity);
        match self.write_header_and_frame(index, header, zeroed.as_slice()) {
            Err(e) => {
                return Err(e);
            },
            Ok(()) => {},
        }
        let r = self.write_header(index, SlotState::Free, 0, 0);
        proof {
            if old(self).shape().stable {
                let body = old(self).slots()[index as int].body;
                assert(overwritten(body, zeroed@) =~= zeros(body.len()));
                assert((header@ + zeros(body.len())).skip(PERSISTENT_SLOT_HEADER_LEN as int)
                    =~= zeros(body.len()));
                assert(self.slots() =~= old(self).slots().update(
                    index as int,
                    old(self).slots()[index as int].released(),
                ));
            }
        }
        r
    }

    /// Marks a slot as corrupted, whatever its state.
    pub fn mark_corrupted(&mut self, index: usize) -> (r: Result<(), DslineError>)
        requires
            old(self).valid(),
        ensures
            final(self).valid(),
            final(self).shape() == old(self).shape(),
            told(old(self).fault(), final(self).fault(), r),
            old(self).unreadable(index) matches Some(e) ==> r == Err::<(), DslineError>(e),
            index >= old(self).shape().capacity ==> r == Err::<(), DslineError>(no_such_slot())
                && *final(self) == *old(self),
            old(self).shape().stable && index < old(self).shape().capacity ==> {
                &&& r == Ok::<(), DslineError>(())
                &&& final(self).slots() == old(self).slots().update(
                    index as int,
                    old(self).slots()[index as int].in_state(SlotState::Corrupted),
                )
            },
    {
        let (_, seq, payload_len): (SlotState, u64, usize) = match self.read_header(index) {
            Ok(header) => header,
            Err(e) => {
                return Err(e);
            },
        };
        let r = self.write_header(index, SlotState::Corrupted, seq, payload_len);
        proof {
            if old(self).shape().stable {
                lemma_slot_len(old(self).storage.contents()[index as int]);
                assert(self.slots() =~= old(self).slots().update(
                    index as int,
                    old(self).slots()[index as int].in_state(SlotState::Corrupted),
                ));
            }
        }
        r
    }

    /// Marks a slot as free and empty, whatever its state. Its frame area stays as it is.
    pub(crate) fn reset(&mut self, index: usize) -> (r: Result<(), DslineError>)
        requires
            old(self).valid(),
            index < old(self).shape().capacity,
        ensures
            final(self).valid(),
            final(self).shape() == old(self).shape(),
            told(old(self).fault(), final(self).fault(), r),
            old(self).shape().stable ==> r == Ok::<(), DslineError>(()),
            old(self).shape().stable ==> final(self).slots() == old(self).slots().update(
                index as int,
                free_header(old(self).slots()[index as int]),
            ),
    {
        self.write_header(index, SlotState::Free, 0, 0)
    }
}

/// A slot marked as free and empty, with the bytes that are in it.
pub open spec fn free_header(slot: SlotView) -> SlotView {
    SlotView { state: SlotState::Free, seq: 0, len: 0, body: slot.body }
}

/// A run of zero bytes.
fn cleared_bytes(len: usize) -> (out: Vec<u8>)
    ensures
        out@ == zeros(len as nat),
{
    let mut out: Vec<u8> = Vec::new();
    while out.len() < len
        invariant
            out@.len() <= len,
            forall|i: int| 0 <= i < out@.len() ==> #[trigger] out@[i] == 0,
        decreases len - out@.len(),
    {
        out.push(0);
    }
    proof {
        assert(out@ =~= zeros(len as nat));
    }
    out
}

impl<S: FixedSlotStorage> SlotRegion for PersistentSlotRegion<S> {
    closed spec fn valid(&self) -> bool {
        &&& self.storage.valid()
        &&& self.storage.shape().stable ==> fits_shape(
            self.storage.contents(),
            self.storage.shape(),
        )
        &&& self.frame_capacity > 0
        &&& self.storage.shape().slot_size == self.frame_capacity + PERSISTENT_SLOT_HEADER_LEN
    }

    closed spec fn shape(&self) -> RegionShape {
        RegionShape {
            capacity: self.storage.shape().capacity as nat,
            frame_room: self.frame_capacity as nat,
            len_range: SLOT_LEN_RANGE as nat,
            stable: self.storage.shape().stable,
        }
    }

    closed spec fn slots(&self) -> Seq<SlotView> {
        slots_of(self.storage.contents())
    }

    closed spec fn fault(&self) -> Option<DslineError> {
        self.storage.fault()
    }

    open spec fn unreadable(&self, index: usize) -> Option<DslineError> {
        if index < self.shape().capacity {
            self.backing().unreadable(index)
        } else {
            None
        }
    }

    open spec fn hidden(&self, index: usize) -> Option<DslineError> {
        self.unreadable(index)
    }

    proof fn lemma_shape(&self) {
        assert forall|i: int| 0 <= i < self.slots().len() implies (
        #[trigger] self.slots()[i].body.len()) == self.shape().frame_room by {
            assert(self.storage.contents()[i].len() == self.storage.shape().slot_size);
        }
    }

    fn slot_header(&self, index: usize) -> (r: Result<(SlotState, u64), DslineError>) {
        match self.read_header(index) {
            Ok((state, seq, _)) => Ok((state, seq)),
            Err(e) => Err(e),
        }
    }

    fn commit(&mut self, index: usize, seq: u64, frame: &[u8]) -> (r: Result<(), DslineError>) {
        self.write_committed(index, seq, frame)
    }

    fn pin(&mut self, index: usize) -> (r: Result<SlotSnapshot, DslineError>) {
        self.read_committed(index)
    }

    fn peek(&self, index: usize) -> (r: Result<SlotSnapshot, DslineError>) {
        self.peek_committed(index)
    }

    fn rewrite(&mut self, index: usize, data: &[u8]) -> (r: Result<(), DslineError>) {
        let header = match self.raw_header(index) {
            Ok(header) => header,
            Err(e) => {
                return Err(e);
            },
        };
        let r = self.write_header_and_frame(index, header, data);
        proof {
            if old(self).shape().stable {
                let bytes = old(self).storage.contents()[index as int];
                let slot = old(self).slots()[index as int];
                let after = header@ + overwritten(slot.body, data@);
                assert(after.subrange(1, 9) =~= bytes.subrange(1, 9));
                assert(after.subrange(9, 13) =~= bytes.subrange(9, 13));
                assert(after.skip(PERSISTENT_SLOT_HEADER_LEN as int) =~= overwritten(
                    slot.body,
                    data@,
                ));
            }
        }
        r
    }

    fn release(&mut self, index: usize, state: SlotState) -> (r: Result<(), DslineError>) {
        match state {
            SlotState::Pinned => self.release_pinned(index),
            _ => self.release_committed(index),
        }
    }
}

/// A slot header tells a length below its range.
proof fn lemma_slot_len(bytes: Seq<u8>)
    requires
        bytes.len() >= PERSISTENT_SLOT_HEADER_LEN,
    ensures
        slot_of(bytes).len < SLOT_LEN_RANGE,
{
    lemma_byte_ranges();
    lemma_le_value_range(bytes.subrange(9, 13));
}

/// A state is found again from its byte.
pub proof fn law_state_code_round_trip(state: SlotState)
    ensures
        SlotState::spec_from_code(state.spec_code()) == state,
{
}

impl<S: FixedSlotStorage> PersistentSlotRegion<S> {
    /// The shape of a region is that of its storage, less the header of each slot. It notes any
    /// length below the range of the length field.
    pub proof fn law_region_shape(&self)
        requires
            self.valid(),
        ensures
            self.backing().valid(),
            self.backing().shape().slot_size > PERSISTENT_SLOT_HEADER_LEN,
            self.shape() == (RegionShape {
                capacity: self.backing().shape().capacity as nat,
                frame_room: (self.backing().shape().slot_size - PERSISTENT_SLOT_HEADER_LEN) as nat,
                len_range: SLOT_LEN_RANGE as nat,
                stable: self.backing().shape().stable,
            }),
            self.slots() == slots_of(self.backing().contents()),
    {
    }
}

impl PersistentSlotRegion<MemorySlotStorage> {
    /// A region in memory is stable.
    pub proof fn law_memory_region_is_stable(&self)
        requires
            self.valid(),
        ensures
            self.shape().stable,
    {
        self.storage.law_memory_is_stable();
    }
}

} // verus!
