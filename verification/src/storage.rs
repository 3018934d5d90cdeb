//! Storage that a slot region writes its bytes to.

use crate::bytes::copy_range;
use crate::error::{ChannelError, DslineError};
use crate::slot::{no_such_slot, overwritten, zeros};
use vstd::prelude::*;

verus! {

/// What stays the same about storage.
pub struct StorageShape {
    /// How many slots there are.
    pub capacity: usize,
    /// How many bytes a slot has.
    pub slot_size: usize,
    /// Whether every request within range is carried out and nobody else writes.
    pub stable: bool,
}

/// A number of slots of bytes, all of one size.
///
/// What the slots hold is promised only of storage that is stable: a file can fail or be shared.
pub trait FixedSlotStorage: std::fmt::Debug + Sized {
    /// Whether the storage is in a state in which it can be used.
    closed spec fn valid(&self) -> bool {
        true
    }

    /// What no request changes. Storage that does not state it is not stable.
    closed spec fn shape(&self) -> StorageShape {
        StorageShape { stable: false, ..arbitrary() }
    }

    /// The bytes of each slot.
    closed spec fn contents(&self) -> Seq<Seq<u8>> {
        arbitrary()
    }

    /// The error that a request to write failed with last, as far as the storage tells. Storage
    /// that does not tell has none.
    closed spec fn fault(&self) -> Option<DslineError> {
        None
    }

    /// The error that reading a slot gives, where the storage tells that it gives one.
    closed spec fn unreadable(&self, index: usize) -> Option<DslineError> {
        None
    }

    /// How many slots there are.
    fn capacity(&self) -> (capacity: usize)
        requires
            self.valid(),
        ensures
            capacity == self.shape().capacity,
            self.shape().stable ==> fits_shape(self.contents(), self.shape()),
    ;

    /// How many bytes a slot has.
    fn slot_size(&self) -> (slot_size: usize)
        requires
            self.valid(),
        ensures
            slot_size == self.shape().slot_size,
            self.shape().stable ==> fits_shape(self.contents(), self.shape()),
    ;

    /// Writes bytes to the start of a slot.
    fn write_slot(&mut self, index: usize, bytes: &[u8]) -> (r: Result<(), DslineError>)
        requires
            old(self).valid(),
        ensures
            final(self).valid(),
            final(self).shape() == old(self).shape(),
            told(old(self).fault(), final(self).fault(), r),
            old(self).shape().stable ==> match access_error(
                old(self).shape().capacity,
                old(self).shape().slot_size,
                index,
                bytes@.len(),
            ) {
                Some(e) => {
                    &&& r == Err::<(), DslineError>(e)
                    &&& final(self).contents() == old(self).contents()
                },
                None => {
                    &&& r == Ok::<(), DslineError>(())
                    &&& final(self).contents() == old(self).contents().update(
                        index as int,
                        overwritten(old(self).contents()[index as int], bytes@),
                    )
                },
            },
    ;

    /// Reads bytes from the start of a slot.
    fn read_slot(&self, index: usize, len: usize) -> (r: Result<Vec<u8>, DslineError>)
        requires
            self.valid(),
        ensures
            r matches Ok(bytes) ==> bytes@.len() == len,
            self.unreadable(index) matches Some(e) ==> r == Err::<Vec<u8>, DslineError>(e),
            self.shape().stable ==> match access_error(
                self.shape().capacity,
                self.shape().slot_size,
                index,
                len as nat,
            ) {
                Some(e) => r == Err::<Vec<u8>, DslineError>(e),
                None => r is Ok && r->Ok_0@ == self.contents()[index as int].take(len as int),
            },
    ;

    /// Fills a slot with zeros.
    fn clear_slot(&mut self, index: usize) -> (r: Result<(), DslineError>)
        requires
            old(self).valid(),
        ensures
            final(self).valid(),
            final(self).shape() == old(self).shape(),
            told(old(self).fault(), final(self).fault(), r),
            old(self).shape().stable ==> if index < old(self).shape().capacity {
                &&& r == Ok::<(), DslineError>(())
                &&& final(self).contents() == old(self).contents().update(
                    index as int,
                    zeros(old(self).shape().slot_size as nat),
                )
            } else {
                &&& r == Err::<(), DslineError>(no_such_slot())
                &&& final(self).contents() == old(self).contents()
            },
    ;
}

/// Whether a request that may have failed is answered with the failure: there is no new one, or it
/// is the answer.
pub open spec fn told<T>(
    before: Option<DslineError>,
    after: Option<DslineError>,
    r: Result<T, DslineError>,
) -> bool {
    after == before || (after matches Some(e) && r == Err::<T, DslineError>(e))
}

/// A failure that is new is the answer, so nothing that failed is answered with success.
pub proof fn law_new_failure_is_the_answer<T>(
    before: Option<DslineError>,
    after: Option<DslineError>,
    r: Result<T, DslineError>,
)
    requires
        told(before, after, r),
    ensures
        after != before ==> r is Err && after == Some(r->Err_0),
        r is Ok ==> after == before,
{
}

/// Whether there are as many slots as promised, each as large as promised.
pub open spec fn fits_shape(contents: Seq<Seq<u8>>, shape: StorageShape) -> bool {
    &&& contents.len() == shape.capacity
    &&& forall|i: int| 0 <= i < contents.len() ==> #[trigger] contents[i].len() == shape.slot_size
}

/// Why `len` bytes at the start of a slot cannot be read or written, if they cannot.
pub open spec fn access_error(
    capacity: usize,
    slot_size: usize,
    index: usize,
    len: nat,
) -> Option<DslineError> {
    if len > slot_size {
        Some(
            DslineError::Channel(
                ChannelError::MessageTooLarge { len: len as usize, slot_size },
            ),
        )
    } else if index >= capacity {
        Some(no_such_slot())
    } else {
        None
    }
}

/// Storage in memory of this process.
#[derive(Debug, Clone, PartialEq, Eq)]
pub struct MemorySlotStorage {
    capacity: usize,
    slot_size: usize,
    data: Vec<u8>,
}

/// Why storage of this shape cannot be had, if it cannot.
pub open spec fn storage_problem(capacity: usize, slot_size: usize) -> Option<ChannelError> {
    if capacity == 0 {
        Some(ChannelError::InvalidConfig("capacity must be greater than zero"))
    } else if slot_size == 0 {
        Some(ChannelError::InvalidConfig("slot_size must be greater than zero"))
    } else if capacity * slot_size > usize::MAX {
        Some(ChannelError::InvalidConfig("storage size overflow"))
    } else {
        None
    }
}

/// Whether memory can be asked for the given number of slots. No vector holds more bytes than
/// the largest signed machine word.
pub open spec fn can_allocate(capacity: usize, slot_size: usize) -> bool {
    storage_problem(capacity, slot_size) is Some || capacity * slot_size <= isize::MAX
}

/// How many bytes storage of this shape takes, or why it cannot be had.
pub fn storage_len(capacity: usize, slot_size: usize) -> (r: Result<usize, DslineError>)
    ensures
        match storage_problem(capacity, slot_size) {
            Some(e) => r == Err::<usize, DslineError>(DslineError::Channel(e)),
            None => r == Ok::<usize, DslineError>((capacity * slot_size) as usize),
        },
{
    if capacity == 0 {
        return Err(
            DslineError::Channel(ChannelError::InvalidConfig("capacity must be greater than zero")),
        );
    }
    if slot_size == 0 {
        return Err(
            DslineError::Channel(
                ChannelError::InvalidConfig("slot_size must be greater than zero"),
            ),
        );
    }
    match capacity.checked_mul(slot_size) {
        Some(len) => Ok(len),
        None => Err(DslineError::Channel(ChannelError::InvalidConfig("storage size overflow"))),
    }
}

/// How many bytes existing storage of this shape takes, or why what is there cannot be it.
pub fn existing_storage_len(capacity: usize, slot_size: usize, actual: u64) -> (r: Result<
    usize,
    DslineError,
>)
    ensures
        match storage_problem(capacity, slot_size) {
            Some(e) => r == Err::<usize, DslineError>(DslineError::Channel(e)),
            None => r == if actual < capacity * slot_size {
                Err::<usize, DslineError>(
                    DslineError::Channel(
                        ChannelError::InvalidConfig("file storage is smaller than expected"),
                    ),
                )
            } else {
                Ok((capacity * slot_size) as usize)
            },
        },
{
    match storage_len(capacity, slot_size) {
        Err(e) => Err(e),
        Ok(expected) => {
            if actual < expected as u64 {
                Err(
                    DslineError::Channel(
                        ChannelError::InvalidConfig("file storage is smaller than expected"),
                    ),
                )
            } else {
                Ok(expected)
            }
        },
    }
}

/// Where a slot starts, if `len` bytes at its start can be read or written.
pub fn slot_offset(capacity: usize, slot_size: usize, index: usize, len: usize) -> (r: Result<
    usize,
    DslineError,
>)
    requires
        capacity * slot_size <= usize::MAX,
    ensures
        match access_error(capacity, slot_size, index, len as nat) {
            Some(e) => r == Err::<usize, DslineError>(e),
            None => r == Ok::<usize, DslineError>((index * slot_size) as usize) && 0 <= index
                * slot_size && index * slot_size + slot_size <= capacity * slot_size,
        },
{
    if len > slot_size {
        return Err(DslineError::Channel(ChannelError::MessageTooLarge { len, slot_size }));
    }
    if index >= capacity {
        return Err(DslineError::Channel(ChannelError::InvalidConfig("slot index out of range")));
    }
    proof {
        lemma_slot_inside(index as int, capacity as int, slot_size as int);
    }
    Ok(index * slot_size)
}

impl MemorySlotStorage {
    /// Zeroed slots, where the shape is possible.
    pub fn new(capacity: usize, slot_size: usize) -> (r: Result<MemorySlotStorage, DslineError>)
        requires
            can_allocate(capacity, slot_size),
        ensures
            match storage_problem(capacity, slot_size) {
                Some(e) => r == Err::<MemorySlotStorage, DslineError>(DslineError::Channel(e)),
                None => {
                    &&& r matches Ok(storage)
                    &&& storage.valid()
                    &&& storage.shape() == (StorageShape { capacity, slot_size, stable: true })
                    &&& storage.contents() == Seq::new(
                        capacity as nat,
                        |i: int| zeros(slot_size as nat),
                    )
                },
            },
    {
        let total_len: usize = match storage_len(capacity, slot_size) {
            Ok(len) => len,
            Err(e) => {
                return Err(e);
            },
        };
        let data: Vec<u8> = vec![0u8; total_len];
        let storage = MemorySlotStorage { capacity, slot_size, data };
        proof {
            assert forall|i: int| 0 <= i < capacity implies #[trigger] storage.contents()[i]
                =~= zeros(slot_size as nat) by {
                lemma_slot_inside(i, capacity as int, slot_size as int);
            }
            assert(storage.contents() =~= Seq::new(
                capacity as nat,
                |i: int| zeros(slot_size as nat),
            ));
        }
        Ok(storage)
    }
}

impl MemorySlotStorage {
    /// Memory carries out every request, nobody else writes to it, and it has the slots promised.
    pub proof fn law_memory_is_stable(&self)
        requires
            self.valid(),
        ensures
            self.shape().stable,
            fits_shape(self.contents(), self.shape()),
    {
        lemma_cut_shape(self.data@, self.capacity as nat, self.slot_size as nat);
    }
}

/// A slot lies inside the buffer.
proof fn lemma_slot_inside(index: int, capacity: int, slot_size: int)
    by (nonlinear_arith)
    requires
        0 <= index < capacity,
        0 <= slot_size,
    ensures
        0 <= index * slot_size,
        index * slot_size + slot_size <= capacity * slot_size,
        (index + 1) * slot_size == index * slot_size + slot_size,
{
}

/// Two different slots do not overlap.
proof fn lemma_slots_apart(i: int, j: int, slot_size: int)
    by (nonlinear_arith)
    requires
        0 <= i < j,
        0 <= slot_size,
    ensures
        i * slot_size + slot_size <= j * slot_size,
{
}

/// The slots of a flat buffer, cut out one by one.
spec fn cut(data: Seq<u8>, capacity: nat, slot_size: nat) -> Seq<Seq<u8>> {
    Seq::new(capacity, |i: int| data.subrange(i * slot_size, i * slot_size + slot_size))
}

/// The slots of a flat buffer all have the same size.
proof fn lemma_cut_shape(data: Seq<u8>, capacity: nat, slot_size: nat)
    requires
        data.len() == capacity * slot_size,
    ensures
        cut(data, capacity, slot_size).len() == capacity,
        forall|i: int|
            0 <= i < capacity ==> #[trigger] cut(data, capacity, slot_size)[i].len() == slot_size,
{
    assert forall|i: int| 0 <= i < capacity implies (
    #[trigger] cut(data, capacity, slot_size)[i].len()) == slot_size by {
        lemma_slot_inside(i, capacity as int, slot_size as int);
    }
}

/// Rewriting bytes inside one slot changes that slot and no other.
proof fn lemma_cut_update(
    before: Seq<u8>,
    after: Seq<u8>,
    capacity: nat,
    slot_size: nat,
    index: int,
    slot: Seq<u8>,
)
    requires
        before.len() == capacity * slot_size,
        after.len() == before.len(),
        0 <= index < capacity,
        slot.len() == slot_size,
        forall|k: int|
            0 <= k < before.len() ==> #[trigger] after[k] == if index * slot_size <= k < index
                * slot_size + slot_size {
                slot[k - index * slot_size]
            } else {
                before[k]
            },
    ensures
        cut(after, capacity, slot_size) == cut(before, capacity, slot_size).update(index, slot),
{
    let left = cut(after, capacity, slot_size);
    let right = cut(before, capacity, slot_size).update(index, slot);
    lemma_slot_inside(index, capacity as int, slot_size as int);
    assert forall|i: int| 0 <= i < capacity implies left[i] =~= right[i] by {
        lemma_slot_inside(i, capacity as int, slot_size as int);
        if i < index {
            lemma_slots_apart(i, index, slot_size as int);
        } else if i > index {
            lemma_slots_apart(index, i, slot_size as int);
        }
    }
    assert(left =~= right);
}

impl FixedSlotStorage for MemorySlotStorage {
    closed spec fn valid(&self) -> bool {
        self.data@.len() == self.capacity * self.slot_size
    }

    closed spec fn contents(&self) -> Seq<Seq<u8>> {
        cut(self.data@, self.capacity as nat, self.slot_size as nat)
    }

    open spec fn fault(&self) -> Option<DslineError> {
        None
    }

    open spec fn unreadable(&self, index: usize) -> Option<DslineError> {
        None
    }

    closed spec fn shape(&self) -> StorageShape {
        StorageShape { capacity: self.capacity, slot_size: self.slot_size, stable: true }
    }

    fn capacity(&self) -> (capacity: usize) {
        proof {
            lemma_cut_shape(self.data@, self.capacity as nat, self.slot_size as nat);
        }
        self.capacity
    }

    fn slot_size(&self) -> (slot_size: usize) {
        proof {
            lemma_cut_shape(self.data@, self.capacity as nat, self.slot_size as nat);
        }
        self.slot_size
    }

    fn write_slot(&mut self, index: usize, bytes: &[u8]) -> (r: Result<(), DslineError>)
        ensures
            match access_error(
                old(self).shape().capacity,
                old(self).shape().slot_size,
                index,
                bytes@.len(),
            ) {
                Some(e) => r == Err::<(), DslineError>(e) && *final(self) == *old(self),
                None => {
                    &&& r == Ok::<(), DslineError>(())
                    &&& final(self).contents() == old(self).contents().update(
                        index as int,
                        overwritten(old(self).contents()[index as int], bytes@),
                    )
                },
            },
    {
        assert(self.data.len() == self.capacity * self.slot_size);
        let offset: usize = match slot_offset(self.capacity, self.slot_size, index, bytes.len()) {
            Ok(offset) => offset,
            Err(e) => {
                return Err(e);
            },
        };
        let ghost before = self.data@;
        let mut k: usize = 0;
        while k < bytes.len()
            invariant
                k <= bytes@.len() <= self.slot_size,
                self.capacity == old(self).capacity,
                self.slot_size == old(self).slot_size,
                index < self.capacity,
                offset == index * self.slot_size,
                offset + self.slot_size <= self.data@.len(),
                self.data@.len() == before.len(),
                self.data@.len() <= usize::MAX,
                forall|j: int|
                    0 <= j < before.len() ==> #[trigger] self.data@[j] == if offset <= j < offset
                        + k {
                        bytes@[j - offset]
                    } else {
                        before[j]
                    },
            decreases bytes@.len() - k,
        {
            self.data[offset + k] = bytes[k];
            k += 1;
        }
        proof {
            let slot = overwritten(old(self).contents()[index as int], bytes@);
            lemma_slot_inside(index as int, self.capacity as int, self.slot_size as int);
            lemma_cut_update(
                before,
                self.data@,
                self.capacity as nat,
                self.slot_size as nat,
                index as int,
                slot,
            );
        }
        Ok(())
    }

    fn read_slot(&self, index: usize, len: usize) -> (r: Result<Vec<u8>, DslineError>)
        ensures
            match access_error(self.shape().capacity, self.shape().slot_size, index, len as nat) {
                Some(e) => r == Err::<Vec<u8>, DslineError>(e),
                None => r is Ok && r->Ok_0@ == self.contents()[index as int].take(len as int),
            },
    {
        assert(self.data.len() == self.capacity * self.slot_size);
        let offset: usize = match slot_offset(self.capacity, self.slot_size, index, len) {
            Ok(offset) => offset,
            Err(e) => {
                return Err(e);
            },
        };
        let bytes = copy_range(self.data.as_slice(), offset, offset + len);
        proof {
            assert(bytes@ =~= self.contents()[index as int].take(len as int));
        }
        Ok(bytes)
    }

    fn clear_slot(&mut self, index: usize) -> (r: Result<(), DslineError>)
        ensures
            if index < old(self).shape().capacity {
                &&& r == Ok::<(), DslineError>(())
                &&& final(self).contents() == old(self).contents().update(
                    index as int,
                    zeros(old(self).shape().slot_size as nat),
                )
            } else {
                r == Err::<(), DslineError>(no_such_slot()) && *final(self) == *old(self)
            },
    {
        assert(self.data.len() == self.capacity * self.slot_size);
        let offset: usize = match slot_offset(self.capacity, self.slot_size, index, 0) {
            Ok(offset) => offset,
            Err(e) => {
                return Err(e);
            },
        };
        let ghost before = self.data@;
        let mut k: usize = 0;
        while k < self.slot_size
            invariant
                k <= self.slot_size,
                self.capacity == old(self).capacity,
                self.slot_size == old(self).slot_size,
                index < self.capacity,
                offset == index * self.slot_size,
                offset + self.slot_size <= self.data@.len(),
                self.data@.len() == before.len(),
                self.data@.len() <= usize::MAX,
                forall|j: int|
                    0 <= j < before.len() ==> #[trigger] self.data@[j] == if offset <= j < offset
                        + k {
                        0u8
                    } else {
                        before[j]
                    },
            decreases self.slot_size - k,
        {
            self.data[offset + k] = 0;
            k += 1;
        }
        proof {
            lemma_cut_update(
                before,
                self.data@,
                self.capacity as nat,
                self.slot_size as nat,
                index as int,
                zeros(self.slot_size as nat),
            );
        }
        Ok(())
    }
}

/// Bytes written to the start of a slot are what is read from it, and what lies behind them stays.
pub proof fn law_written_bytes_are_read_back(slot: Seq<u8>, bytes: Seq<u8>)
    requires
        bytes.len() <= slot.len(),
    ensures
        overwritten(slot, bytes).take(bytes.len() as int) == bytes,
        overwritten(slot, bytes).skip(bytes.len() as int) == slot.skip(bytes.len() as int),
        overwritten(slot, bytes).len() == slot.len(),
{
    assert(overwritten(slot, bytes).take(bytes.len() as int) =~= bytes);
    assert(overwritten(slot, bytes).skip(bytes.len() as int) =~= slot.skip(bytes.len() as int));
}

/// A write to a slot of memory is refused exactly where it is too long or there is no such slot.
/// Otherwise the bytes written are what is read from the slot, what lies behind them stays, and so
/// do all other slots.
pub proof fn law_memory_write_changes_one_slot(
    storage: MemorySlotStorage,
    index: usize,
    bytes: Seq<u8>,
)
    requires
        storage.valid(),
    ensures
        ({
            let shape = storage.shape();
            let contents = storage.contents();
            let len = bytes.len();
            let refusal = access_error(shape.capacity, shape.slot_size, index, len);
            let after = contents.update(index as int, overwritten(contents[index as int], bytes));
            &&& refusal is None <==> len <= shape.slot_size && index < shape.capacity
            &&& refusal is None ==> {
                &&& fits_shape(after, shape)
                &&& after[index as int].take(len as int) == bytes
                &&& after[index as int].skip(len as int) == contents[index as int].skip(len as int)
                &&& forall|j: int|
                    0 <= j < shape.capacity && j != index ==> #[trigger] after[j] == contents[j]
            }
        }),
{
    storage.law_memory_is_stable();
    if bytes.len() <= storage.shape().slot_size && index < storage.shape().capacity {
        law_written_bytes_are_read_back(storage.contents()[index as int], bytes);
    }
}

/// Storage can be had exactly where it has slots with room, and their bytes can be counted.
pub proof fn law_storage_needs_countable_bytes(capacity: usize, slot_size: usize)
    ensures
        storage_problem(capacity, slot_size) is None <==> capacity > 0 && slot_size > 0 && capacity
            * slot_size <= usize::MAX,
        capacity == 0 ==> storage_problem(capacity, slot_size) == Some(
            ChannelError::InvalidConfig("capacity must be greater than zero"),
        ),
        capacity > 0 && slot_size == 0 ==> storage_problem(capacity, slot_size) == Some(
            ChannelError::InvalidConfig("slot_size must be greater than zero"),
        ),
        capacity > 0 && slot_size > 0 && capacity * slot_size > usize::MAX ==> storage_problem(
            capacity,
            slot_size,
        ) == Some(ChannelError::InvalidConfig("storage size overflow")),
{
}

/// What is too long for a slot is told before a slot that is not there.
pub proof fn law_access_is_refused_for_a_reason(
    capacity: usize,
    slot_size: usize,
    index: usize,
    len: nat,
)
    ensures
        len > slot_size ==> access_error(capacity, slot_size, index, len) == Some(
            DslineError::Channel(ChannelError::MessageTooLarge { len: len as usize, slot_size }),
        ),
        len <= slot_size && index >= capacity ==> access_error(capacity, slot_size, index, len)
            == Some(
            DslineError::Channel(ChannelError::InvalidConfig("slot index out of range")),
        ),
        len <= slot_size && index < capacity ==> access_error(capacity, slot_size, index, len)
            is None,
{
}

} // verus!
