//! Messages that span several slots: how they are split, labelled and checked.

use crate::bytes::{
    copy_range, le_bytes, le_value, lemma_byte_ranges, lemma_le_bytes_len, lemma_le_round_trip,
    push_u64, read_u64,
};
use crate::checksum::checksum32;
use crate::error::{ChannelError, DslineError, ProtocolError};
use crate::frame::{
    encode_frame, frame_bytes, frame_for, header_len, items, law_frame_round_trip,
    lemma_frame_bytes_len, metadata_len, parsed_frame, Frame, FrameKind, FrameView, Metadata,
    MetadataView, CHUNK_METADATA_LEN, FRAME_FLAG_CHUNKED, FRAME_FLAG_CHUNK_END,
    FRAME_FLAG_CHUNK_START, FRAME_HEADER_LEN, TLV_CHUNK_INDEX, TLV_CHUNK_MESSAGE_LEN,
    TLV_CHUNK_TOTAL,
};
use crate::spsc::{encode_plain, is_intact, plain_frame, seq_after, SpscConfig};
use vstd::arithmetic::div_mod::{lemma_fundamental_div_mod, lemma_mod_bound};
use vstd::prelude::*;

verus! {

/// The place of a chunk in its message.
#[derive(Debug, Clone, Copy, PartialEq, Eq, Structural)]
pub struct ChunkInfo {
    pub index: usize,
    pub total: usize,
    pub message_len: usize,
}

/// How a message is spread over slots.
#[derive(Debug, Clone, Copy, PartialEq, Eq, Structural)]
pub struct SendPlan {
    pub chunk_payload_size: usize,
    pub needed_slots: usize,
}

/// The sizes that a channel can take.
#[derive(Debug, Clone, Copy, PartialEq, Eq, Structural)]
pub struct MessageSizeLimits {
    pub slot_size: usize,
    pub chunk_metadata_size: usize,
    pub chunk_payload_size: usize,
    pub max_message_size: usize,
}

/// How much payload a chunk carries: what the chunk labels leave of a slot.
pub open spec fn chunk_room(config: SpscConfig) -> nat {
    if config.slot_size >= CHUNK_METADATA_LEN {
        (config.slot_size - CHUNK_METADATA_LEN) as nat
    } else {
        0
    }
}

/// The size of the largest message: one slot, or all slots full of chunks if that is more and
/// can be counted.
pub open spec fn largest_message(config: SpscConfig) -> nat {
    let chunked = config.capacity * chunk_room(config);
    if config.slot_size < chunked <= usize::MAX {
        chunked as nat
    } else {
        config.slot_size as nat
    }
}

/// How many chunks of the given size a message takes.
pub open spec fn chunk_count(len: nat, room: nat) -> nat {
    ((len + room - 1) / room as int) as nat
}

/// The error for a message that no number of slots can take.
pub open spec fn too_large(config: SpscConfig, len: nat) -> ChannelError {
    ChannelError::MessageTooLarge {
        len: len as usize,
        slot_size: largest_message(config) as usize,
    }
}

/// How a message of the given length is spread over slots, or why it cannot be.
pub open spec fn planned(config: SpscConfig, len: nat) -> Result<SendPlan, ChannelError> {
    let room = chunk_room(config);
    if len <= config.slot_size {
        Ok(SendPlan { chunk_payload_size: config.slot_size, needed_slots: 1 })
    } else if room == 0 {
        Err(too_large(config, len))
    } else if len + room - 1 > usize::MAX || config.capacity * room > usize::MAX {
        Err(ChannelError::InvalidConfig("message size overflow"))
    } else if chunk_count(len, room) > config.capacity || len > config.capacity * room {
        Err(too_large(config, len))
    } else {
        Ok(
            SendPlan {
                chunk_payload_size: room as usize,
                needed_slots: chunk_count(len, room) as usize,
            },
        )
    }
}

/// Chooses how a message of the given length is spread over slots.
pub fn send_plan(config: &SpscConfig, len: usize) -> (r: Result<SendPlan, DslineError>)
    ensures
        match planned(*config, len as nat) {
            Ok(plan) => r == Ok::<SendPlan, DslineError>(plan),
            Err(e) => r == Err::<SendPlan, DslineError>(DslineError::Channel(e)),
        },
{
    if len <= config.slot_size {
        return Ok(SendPlan { chunk_payload_size: config.slot_size, needed_slots: 1 });
    }
    let limits = message_size_limits(config);
    let too_large = ChannelError::MessageTooLarge { len, slot_size: limits.max_message_size };
    let room: usize = limits.chunk_payload_size;
    if room == 0 {
        return Err(DslineError::Channel(too_large));
    }
    let needed_slots: usize = match len.checked_add(room - 1) {
        Some(sum) => sum / room,
        None => {
            return Err(DslineError::Channel(ChannelError::InvalidConfig("message size overflow")));
        },
    };
    let max_chunked: usize = match config.capacity.checked_mul(room) {
        Some(size) => size,
        None => {
            return Err(DslineError::Channel(ChannelError::InvalidConfig("message size overflow")));
        },
    };
    if needed_slots > config.capacity || len > max_chunked {
        return Err(DslineError::Channel(too_large));
    }
    Ok(SendPlan { chunk_payload_size: room, needed_slots })
}

/// The sizes that a channel of this configuration can take.
pub fn message_size_limits(config: &SpscConfig) -> (limits: MessageSizeLimits)
    ensures
        limits.slot_size == config.slot_size,
        limits.chunk_metadata_size == CHUNK_METADATA_LEN,
        limits.chunk_payload_size == chunk_room(*config),
        limits.max_message_size == largest_message(*config),
        limits.chunk_metadata_size == 42,
        config.slot_size >= 42 ==> limits.chunk_payload_size == config.slot_size - 42,
        config.slot_size < 42 ==> limits.chunk_payload_size == 0,
        limits.max_message_size >= config.slot_size,
{
    let chunk_payload_size: usize = if config.slot_size >= CHUNK_METADATA_LEN {
        config.slot_size - CHUNK_METADATA_LEN
    } else {
        0
    };
    let max_message_size: usize = match config.capacity.checked_mul(chunk_payload_size) {
        Some(chunked) => if chunked > config.slot_size {
            chunked
        } else {
            config.slot_size
        },
        None => config.slot_size,
    };
    MessageSizeLimits {
        slot_size: config.slot_size,
        chunk_metadata_size: CHUNK_METADATA_LEN,
        chunk_payload_size,
        max_message_size,
    }
}

/// What a full count of chunks covers: all of the message, and without the last chunk not all.
pub proof fn lemma_chunk_count(len: nat, room: nat)
    requires
        room > 0,
        len > 0,
    ensures
        chunk_count(len, room) >= 1,
        len <= chunk_count(len, room) * room,
        (chunk_count(len, room) - 1) * room < len,
        forall|i: int|
            0 <= i < chunk_count(len, room) ==> #[trigger] (i * room) < len && i * room >= 0,
{
    let sum = len + room - 1;
    let count = sum / room as int;
    lemma_fundamental_div_mod(sum, room as int);
    lemma_mod_bound(sum, room as int);
    assert(count * room == room * count) by (nonlinear_arith);
    assert((count - 1) * room == count * room - room) by (nonlinear_arith);
    assert(count >= 1) by (nonlinear_arith)
        requires
            count * room >= len,
            len > 0,
            room > 0,
    ;
    assert forall|i: int| 0 <= i < count implies #[trigger] (i * room) < len && i * room >= 0 by {
        assert(i * room <= (count - 1) * room && i * room >= 0) by (nonlinear_arith)
            requires
                0 <= i <= count - 1,
                room > 0,
        ;
    }
}

/// A message is accepted exactly when it is no larger than the largest message size reported,
/// unless counting its chunks overflows a machine word.
pub proof fn law_largest_message_is_exact(config: SpscConfig, len: nat)
    requires
        config.problem() is None,
        len + chunk_room(config) - 1 <= usize::MAX,
    ensures
        planned(config, len) is Ok <==> len <= largest_message(config),
{
    let room = chunk_room(config);
    let capacity = config.capacity as nat;
    if len > config.slot_size && room > 0 {
        lemma_chunk_count(len, room);
        let count = chunk_count(len, room);
        assert(len <= capacity * room ==> count <= capacity) by (nonlinear_arith)
            requires
                (count - 1) * room < len,
                room > 0,
        ;
    }
    if room == 0 {
        assert(capacity * room == 0) by (nonlinear_arith)
            requires
                room == 0,
        ;
    }
}

/// The sizes reported are those of the configuration: the labels of a chunk take 42 bytes of its
/// slot, and the largest message fills one slot, or all slots with chunks where that is more and
/// can be counted.
pub proof fn law_size_limits_by_the_numbers(config: SpscConfig)
    ensures
        CHUNK_METADATA_LEN == 42,
        config.slot_size >= 42 ==> chunk_room(config) == config.slot_size - 42,
        config.slot_size <= 42 ==> chunk_room(config) == 0,
        config.slot_size <= 42 ==> largest_message(config) == config.slot_size,
        config.slot_size > 42 && config.capacity * (config.slot_size - 42) > usize::MAX
            ==> largest_message(config) == config.slot_size,
        config.slot_size > 42 && config.capacity * (config.slot_size - 42) <= usize::MAX
            ==> largest_message(config) >= config.slot_size && largest_message(config)
            >= config.capacity * (config.slot_size - 42) && (largest_message(config)
            == config.slot_size || largest_message(config) == config.capacity * (config.slot_size
            - 42)),
{
    if config.slot_size <= 42 {
        assert(config.capacity * chunk_room(config) == 0) by (nonlinear_arith)
            requires
                chunk_room(config) == 0,
        ;
    }
}

/// A message that fits in one slot takes one. A longer one takes as many as it fills with parts of
/// `slot_size - 42` bytes, where there are that many slots and the sizes can be counted, and is
/// refused otherwise.
pub proof fn law_plan_by_the_numbers(config: SpscConfig, len: nat)
    requires
        config.capacity > 0,
        config.slot_size > 0,
    ensures
        len <= config.slot_size ==> planned(config, len) == Ok::<SendPlan, ChannelError>(
            SendPlan { chunk_payload_size: config.slot_size, needed_slots: 1 },
        ),
        config.slot_size < len && config.slot_size <= 42 ==> planned(config, len) == Err::<
            SendPlan,
            ChannelError,
        >(ChannelError::MessageTooLarge { len: len as usize, slot_size: config.slot_size }),
        config.slot_size < len && config.slot_size > 42 ==> {
            let part = config.slot_size - 42;
            let most = config.capacity * part;
            if len + part - 1 > usize::MAX || most > usize::MAX {
                planned(config, len) == Err::<SendPlan, ChannelError>(
                    ChannelError::InvalidConfig("message size overflow"),
                )
            } else if len > most {
                planned(config, len) == Err::<SendPlan, ChannelError>(
                    ChannelError::MessageTooLarge {
                        len: len as usize,
                        slot_size: if most > config.slot_size {
                            most as usize
                        } else {
                            config.slot_size
                        },
                    },
                )
            } else {
                &&& planned(config, len) matches Ok(plan)
                &&& plan.chunk_payload_size == part
                &&& plan.needed_slots == (len + part - 1) / part
                &&& 1 <= plan.needed_slots <= config.capacity
                &&& (plan.needed_slots - 1) * part < len <= plan.needed_slots * part
            }
        },
{
    law_size_limits_by_the_numbers(config);
    let room = chunk_room(config);
    if config.slot_size < len && config.slot_size > 42 {
        lemma_chunk_count(len, room);
        let count = chunk_count(len, room);
        let capacity = config.capacity as nat;
        assert(len <= capacity * room ==> count <= capacity) by (nonlinear_arith)
            requires
                (count - 1) * room < len,
                room > 0,
        ;
    }
}

/// A message that fits takes no more slots than there are.
pub proof fn lemma_plan_fits(config: SpscConfig, len: nat)
    requires
        config.problem() is None,
        planned(config, len) is Ok,
    ensures
        1 <= planned(config, len)->Ok_0.needed_slots <= config.capacity,
{
    let room = chunk_room(config);
    if len > config.slot_size {
        lemma_chunk_count(len, room);
    }
}

/// The labels of a chunk.
pub open spec fn chunk_items(index: nat, total: nat, message_len: nat) -> Seq<MetadataView> {
    seq![
        MetadataView { ty: TLV_CHUNK_INDEX, value: le_bytes(index, 8) },
        MetadataView { ty: TLV_CHUNK_TOTAL, value: le_bytes(total, 8) },
        MetadataView { ty: TLV_CHUNK_MESSAGE_LEN, value: le_bytes(message_len, 8) },
    ]
}

/// A number as the eight bytes of a label.
fn usize_to_u64_bytes(value: usize) -> (bytes: Vec<u8>)
    ensures
        bytes@ == le_bytes(value as nat, 8),
{
    let mut bytes: Vec<u8> = Vec::new();
    push_u64(&mut bytes, value as u64);
    proof {
        assert(bytes@ =~= le_bytes(value as nat, 8));
    }
    bytes
}

/// Makes the labels of a chunk.
pub fn chunk_metadata(index: usize, total: usize, message_len: usize) -> (metadata: Vec<Metadata>)
    ensures
        items(metadata@) == chunk_items(index as nat, total as nat, message_len as nat),
{
    let mut metadata: Vec<Metadata> = Vec::new();
    metadata.push(Metadata::new(TLV_CHUNK_INDEX, usize_to_u64_bytes(index)));
    metadata.push(Metadata::new(TLV_CHUNK_TOTAL, usize_to_u64_bytes(total)));
    metadata.push(Metadata::new(TLV_CHUNK_MESSAGE_LEN, usize_to_u64_bytes(message_len)));
    proof {
        assert(items(metadata@) =~= chunk_items(
            index as nat,
            total as nat,
            message_len as nat,
        ));
    }
    metadata
}

/// The labels of a chunk take the bytes that are set aside for them.
proof fn lemma_chunk_items_len(index: nat, total: nat, message_len: nat)
    ensures
        metadata_len(chunk_items(index, total, message_len)) == CHUNK_METADATA_LEN,
{
    let all = chunk_items(index, total, message_len);
    lemma_le_bytes_len(index, 8);
    lemma_le_bytes_len(total, 8);
    lemma_le_bytes_len(message_len, 8);
    reveal_with_fuel(metadata_len, 4);
    assert(all.skip(1).skip(1).skip(1).len() == 0);
}

/// The flags of a chunk: that it is one, and whether it is the first or the last.
pub open spec fn flags_of_chunk(index: nat, total: nat) -> u16 {
    if index == 0 && index + 1 == total {
        7
    } else if index == 0 {
        3
    } else if index + 1 == total {
        5
    } else {
        1
    }
}

/// Makes the flags of a chunk.
pub fn chunk_flags(index: usize, total: usize) -> (flags: u16)
    requires
        index < total,
    ensures
        flags == flags_of_chunk(index as nat, total as nat),
{
    let mut flags: u16 = FRAME_FLAG_CHUNKED;
    assert(1u16 | 2 == 3) by (bit_vector);
    assert(1u16 | 4 == 5) by (bit_vector);
    assert(3u16 | 4 == 7) by (bit_vector);
    if index == 0 {
        flags = flags | FRAME_FLAG_CHUNK_START;
    }
    if index + 1 == total {
        flags = flags | FRAME_FLAG_CHUNK_END;
    }
    flags
}

/// Whether a flag word has a flag.
pub open spec fn has_flag(flags: u16, flag: u16) -> bool {
    flags & flag != 0
}

/// The flags of a chunk say what the chunk is.
pub proof fn lemma_flags_of_chunk(index: nat, total: nat)
    ensures
        has_flag(flags_of_chunk(index, total), FRAME_FLAG_CHUNKED),
        has_flag(flags_of_chunk(index, total), FRAME_FLAG_CHUNK_START) <==> index == 0,
        has_flag(flags_of_chunk(index, total), FRAME_FLAG_CHUNK_END) <==> index + 1 == total,
        !has_flag(0, FRAME_FLAG_CHUNKED),
{
    assert(7u16 & 1 != 0 && 3u16 & 1 != 0 && 5u16 & 1 != 0 && 1u16 & 1 != 0) by (bit_vector);
    assert(7u16 & 2 != 0 && 3u16 & 2 != 0 && 5u16 & 2 == 0 && 1u16 & 2 == 0) by (bit_vector);
    assert(7u16 & 4 != 0 && 3u16 & 4 == 0 && 5u16 & 4 != 0 && 1u16 & 4 == 0) by (bit_vector);
    assert(0u16 & 1 == 0) by (bit_vector);
}

/// The value of the first item of a type.
pub open spec fn first_value(metadata: Seq<MetadataView>, ty: u16) -> Option<Seq<u8>>
    decreases metadata.len(),
{
    if metadata.len() == 0 {
        None
    } else if metadata[0].ty == ty {
        Some(metadata[0].value)
    } else {
        first_value(metadata.skip(1), ty)
    }
}

/// The number that a label gives, or why it gives none.
pub open spec fn label(metadata: Seq<MetadataView>, ty: u16) -> Result<usize, ChannelError> {
    match first_value(metadata, ty) {
        None => Err(ChannelError::CorruptedMessage),
        Some(value) => if value.len() != 8 {
            Err(ChannelError::CorruptedMessage)
        } else if le_value(value) > usize::MAX {
            Err(ChannelError::InvalidConfig("chunk metadata overflow"))
        } else {
            Ok(le_value(value) as usize)
        },
    }
}

/// The place that a frame's labels give it, or why they give none.
pub open spec fn labelled(metadata: Seq<MetadataView>) -> Result<ChunkInfo, ChannelError> {
    match label(metadata, TLV_CHUNK_INDEX) {
        Err(e) => Err(e),
        Ok(index) => match label(metadata, TLV_CHUNK_TOTAL) {
            Err(e) => Err(e),
            Ok(total) => match label(metadata, TLV_CHUNK_MESSAGE_LEN) {
                Err(e) => Err(e),
                Ok(message_len) => if total == 0 || index >= total {
                    Err(ChannelError::CorruptedMessage)
                } else {
                    Ok(ChunkInfo { index, total, message_len })
                },
            },
        },
    }
}

/// The value of the first item of a type, as a position in the list.
fn find_item(metadata: &Vec<Metadata>, ty: u16) -> (r: Option<usize>)
    ensures
        match r {
            Some(i) => i < metadata@.len() && first_value(items(metadata@), ty) == Some(
                metadata@[i as int].value@,
            ),
            None => first_value(items(metadata@), ty) is None,
        },
{
    let ghost all = items(metadata@);
    let mut i: usize = 0;
    proof {
        assert(all.skip(0) =~= all);
    }
    while i < metadata.len()
        invariant
            i <= metadata@.len(),
            all == items(metadata@),
            first_value(all, ty) == first_value(all.skip(i as int), ty),
        decreases metadata@.len() - i,
    {
        proof {
            assert(all.skip(i as int).skip(1) =~= all.skip(i + 1));
            assert(all.skip(i as int)[0] == metadata@[i as int]@);
        }
        if metadata[i].ty == ty {
            return Some(i);
        }
        i += 1;
    }
    None
}

/// The number that a label of a frame gives.
fn metadata_usize(frame: &Frame, ty: u16) -> (r: Result<usize, ChannelError>)
    ensures
        r == label(items(frame.metadata@), ty),
{
    match find_item(&frame.metadata, ty) {
        None => Err(ChannelError::CorruptedMessage),
        Some(i) => {
            let value = &frame.metadata[i].value;
            if value.len() != 8 {
                return Err(ChannelError::CorruptedMessage);
            }
            let number: u64 = read_u64(value.as_slice(), 0);
            proof {
                assert(value@.subrange(0, 8) =~= value@);
            }
            if number > usize::MAX as u64 {
                Err(ChannelError::InvalidConfig("chunk metadata overflow"))
            } else {
                Ok(number as usize)
            }
        },
    }
}

/// The place that a frame's labels give it.
pub fn chunk_info(frame: &Frame) -> (r: Result<ChunkInfo, DslineError>)
    ensures
        match labelled(frame@.metadata) {
            Ok(info) => r == Ok::<ChunkInfo, DslineError>(info),
            Err(e) => r == Err::<ChunkInfo, DslineError>(DslineError::Channel(e)),
        },
{
    let index: usize = match metadata_usize(frame, TLV_CHUNK_INDEX) {
        Ok(index) => index,
        Err(e) => {
            return Err(DslineError::Channel(e));
        },
    };
    let total: usize = match metadata_usize(frame, TLV_CHUNK_TOTAL) {
        Ok(total) => total,
        Err(e) => {
            return Err(DslineError::Channel(e));
        },
    };
    let message_len: usize = match metadata_usize(frame, TLV_CHUNK_MESSAGE_LEN) {
        Ok(message_len) => message_len,
        Err(e) => {
            return Err(DslineError::Channel(e));
        },
    };
    if total == 0 || index >= total {
        return Err(DslineError::Channel(ChannelError::CorruptedMessage));
    }
    Ok(ChunkInfo { index, total, message_len })
}

/// Checks that a frame is of kind bytes and has the checksum it declares.
pub fn validate_bytes_frame(frame: &Frame) -> (r: Result<(), DslineError>)
    ensures
        r == if is_intact(frame@) {
            Ok::<(), DslineError>(())
        } else {
            Err(DslineError::Channel(ChannelError::CorruptedMessage))
        },
{
    if frame.header.kind != FrameKind::Bytes || checksum32(frame.payload.as_slice())
        != frame.header.checksum {
        return Err(DslineError::Channel(ChannelError::CorruptedMessage));
    }
    Ok(())
}

/// Whether a frame is a chunk.
pub open spec fn frame_is_chunk(frame: FrameView) -> bool {
    has_flag(frame.header.flags, FRAME_FLAG_CHUNKED)
}

/// Whether a frame is a chunk.
pub fn is_chunked(frame: &Frame) -> (chunked: bool)
    ensures
        chunked == frame_is_chunk(frame@),
{
    frame.header.flags & FRAME_FLAG_CHUNKED != 0
}

/// Why a frame is not the chunk that is due, if it is not.
pub open spec fn chunk_problem(frame: FrameView, seq: u64, expected: ChunkInfo) -> Option<
    ChannelError,
> {
    if !is_intact(frame) || frame.header.seq != seq || !frame_is_chunk(frame) {
        Some(ChannelError::CorruptedMessage)
    } else {
        match labelled(frame.metadata) {
            Err(e) => Some(e),
            Ok(info) => {
                let flags = frame.header.flags;
                if info != expected || has_flag(flags, FRAME_FLAG_CHUNK_START) != (info.index == 0)
                    || has_flag(flags, FRAME_FLAG_CHUNK_END) != (info.index + 1 == info.total) {
                    Some(ChannelError::CorruptedMessage)
                } else {
                    None
                }
            },
        }
    }
}

/// Checks that a frame is the chunk that is due.
pub fn validate_chunk(frame: &Frame, seq: u64, expected: ChunkInfo) -> (r: Result<(), DslineError>)
    ensures
        r == match chunk_problem(frame@, seq, expected) {
            Some(e) => Err::<(), DslineError>(DslineError::Channel(e)),
            None => Ok(()),
        },
{
    match validate_bytes_frame(frame) {
        Ok(()) => {},
        Err(e) => {
            return Err(e);
        },
    }
    if frame.header.seq != seq || !is_chunked(frame) {
        return Err(DslineError::Channel(ChannelError::CorruptedMessage));
    }
    let info = match chunk_info(frame) {
        Ok(info) => info,
        Err(e) => {
            return Err(e);
        },
    };
    if info != expected {
        return Err(DslineError::Channel(ChannelError::CorruptedMessage));
    }
    let has_start = frame.header.flags & FRAME_FLAG_CHUNK_START != 0;
    let has_end = frame.header.flags & FRAME_FLAG_CHUNK_END != 0;
    if has_start != (info.index == 0) || has_end != (info.index + 1 == info.total) {
        return Err(DslineError::Channel(ChannelError::CorruptedMessage));
    }
    Ok(())
}

/// Whether a sequence number comes before another on the circle of all of them: the way forward
/// from it to the other is shorter than half the circle.
pub open spec fn seq_precedes(left: u64, right: u64) -> bool {
    0 < (right - left) % 0x1_0000_0000_0000_0000 < 0x8000_0000_0000_0000
}

/// Whether a sequence number comes before another, also where the count has started over.
pub fn sequence_precedes(left: u64, right: u64) -> (before: bool)
    ensures
        before == seq_precedes(left, right),
{
    left != right && right.wrapping_sub(left) < 0x8000_0000_0000_0000
}

/// The order of sequence numbers has a direction: no number comes before itself, and of two
/// numbers at most one comes before the other. Each comes before the next, also where the count
/// starts over.
pub proof fn law_sequence_order(left: u64, right: u64)
    ensures
        !seq_precedes(left, left),
        !(seq_precedes(left, right) && seq_precedes(right, left)),
        seq_precedes(left, seq_after(left)),
{
}

/// The part of a message that a chunk carries.
pub open spec fn chunk_part(payload: Seq<u8>, room: nat, index: int) -> Seq<u8> {
    let start = index * room;
    let end = if start + room < payload.len() {
        start + room
    } else {
        payload.len() as int
    };
    payload.subrange(start, end)
}

/// The frame of a chunk.
pub open spec fn chunk_frame(seq: u64, payload: Seq<u8>, room: nat, index: int) -> FrameView {
    let total = chunk_count(payload.len(), room);
    frame_for(
        FrameKind::Bytes,
        flags_of_chunk(index as nat, total),
        seq,
        0,
        0,
        chunk_items(index as nat, total, payload.len()),
        chunk_part(payload, room, index),
    )
}

/// The frames of a message, in the order in which they are written.
pub open spec fn message_frames(config: SpscConfig, seq: u64, payload: Seq<u8>) -> Seq<FrameView> {
    if payload.len() <= config.slot_size {
        seq![plain_frame(seq, payload)]
    } else {
        Seq::new(
            chunk_count(payload.len(), chunk_room(config)),
            |i: int| chunk_frame(seq, payload, chunk_room(config), i),
        )
    }
}

/// How long the frame of a chunk is, and that its header can be told.
pub proof fn lemma_chunk_frame_len(seq: u64, payload: Seq<u8>, room: nat, index: int)
    requires
        room > 0,
        0 <= index < chunk_count(payload.len(), room),
        payload.len() > 0,
    ensures
        header_len(chunk_frame(seq, payload, room, index).metadata) == FRAME_HEADER_LEN
            + CHUNK_METADATA_LEN,
        0 < chunk_part(payload, room, index).len() <= room,
        chunk_part(payload, room, index).len() <= payload.len(),
        frame_bytes(chunk_frame(seq, payload, room, index)).len() <= FRAME_HEADER_LEN
            + CHUNK_METADATA_LEN + room,
        frame_bytes(chunk_frame(seq, payload, room, index)).len() >= FRAME_HEADER_LEN,
{
    let frame = chunk_frame(seq, payload, room, index);
    let total = chunk_count(payload.len(), room);
    lemma_chunk_count(payload.len(), room);
    lemma_chunk_items_len(index as nat, total, payload.len());
    lemma_frame_bytes_len(frame);
    assert(index * room < payload.len());
}

/// Encodes a message as one frame or as chunks. Every frame fits in a slot.
pub fn encode_message_frames(config: &SpscConfig, plan: SendPlan, seq: u64, bytes: &[u8]) -> (out:
    Vec<Vec<u8>>)
    requires
        planned(*config, bytes@.len()) == Ok::<SendPlan, ChannelError>(plan),
        config.problem() is None,
    ensures
        out@.len() == plan.needed_slots,
        out@.len() == message_frames(*config, seq, bytes@).len(),
        forall|i: int|
            0 <= i < out@.len() ==> #[trigger] out@[i]@ == frame_bytes(
                message_frames(*config, seq, bytes@)[i],
            ),
        forall|i: int|
            0 <= i < out@.len() ==> FRAME_HEADER_LEN <= #[trigger] out@[i]@.len()
                <= config.slot_size + FRAME_HEADER_LEN,
{
    let mut out: Vec<Vec<u8>> = Vec::new();
    if bytes.len() <= config.slot_size {
        out.push(encode_plain(seq, bytes));
        return out;
    }
    let room: usize = plan.chunk_payload_size;
    let total: usize = plan.needed_slots;
    let ghost frames = message_frames(*config, seq, bytes@);
    proof {
        lemma_chunk_count(bytes@.len(), room as nat);
    }
    let mut index: usize = 0;
    let mut start: usize = 0;
    while index < total
        invariant
            index <= total,
            total == chunk_count(bytes@.len(), room as nat),
            0 < room == chunk_room(*config),
            bytes@.len() > config.slot_size,
            frames == message_frames(*config, seq, bytes@),
            start == if index < total {
                index * room
            } else {
                bytes@.len() as int
            },
            out@.len() == index,
            forall|i: int| 0 <= i < index ==> #[trigger] out@[i]@ == frame_bytes(frames[i]),
            forall|i: int|
                0 <= i < index ==> FRAME_HEADER_LEN <= #[trigger] out@[i]@.len() <= config.slot_size
                    + FRAME_HEADER_LEN,
        decreases total - index,
    {
        proof {
            lemma_chunk_count(bytes@.len(), room as nat);
            lemma_chunk_frame_len(seq, bytes@, room as nat, index as int);
            assert(index * room < bytes@.len());
            assert((index + 1) * room == index * room + room) by (nonlinear_arith);
            if index + 1 < total {
                assert((index + 1) * room < bytes@.len());
            } else {
                assert(index == total - 1);
            }
        }
        let end: usize = if bytes.len() - start > room {
            start + room
        } else {
            bytes.len()
        };
        let part = copy_range(bytes, start, end);
        let metadata = chunk_metadata(index, total, bytes.len());
        let frame = match encode_frame(
            FrameKind::Bytes,
            chunk_flags(index, total),
            seq,
            0,
            0,
            metadata.as_slice(),
            part.as_slice(),
        ) {
            Ok(frame) => frame,
            Err(_) => vstd::pervasive::unreached(),
        };
        out.push(frame);
        start = end;
        index += 1;
    }
    out
}

/// A chunk is read back from its bytes.
pub proof fn lemma_chunk_round_trip(seq: u64, payload: Seq<u8>, room: nat, index: int)
    requires
        room > 0,
        0 <= index < chunk_count(payload.len(), room),
        0 < payload.len() <= usize::MAX,
        chunk_count(payload.len(), room) <= usize::MAX,
    ensures
        parsed_frame(frame_bytes(chunk_frame(seq, payload, room, index))) == Ok::<
            FrameView,
            ProtocolError,
        >(chunk_frame(seq, payload, room, index)),
        chunk_problem(
            chunk_frame(seq, payload, room, index),
            seq,
            ChunkInfo {
                index: index as usize,
                total: chunk_count(payload.len(), room) as usize,
                message_len: payload.len() as usize,
            },
        ) is None,
        labelled(chunk_frame(seq, payload, room, index).metadata) == Ok::<ChunkInfo, ChannelError>(
            ChunkInfo {
                index: index as usize,
                total: chunk_count(payload.len(), room) as usize,
                message_len: payload.len() as usize,
            },
        ),
        is_intact(chunk_frame(seq, payload, room, index)),
        frame_is_chunk(chunk_frame(seq, payload, room, index)),
        chunk_frame(seq, payload, room, index).header.seq == seq,
{
    let total = chunk_count(payload.len(), room);
    let frame = chunk_frame(seq, payload, room, index);
    let all = frame.metadata;
    lemma_chunk_frame_len(seq, payload, room, index);
    law_frame_round_trip(
        FrameKind::Bytes,
        flags_of_chunk(index as nat, total),
        seq,
        0,
        0,
        all,
        chunk_part(payload, room, index),
    );
    lemma_flags_of_chunk(index as nat, total);
    lemma_byte_ranges();
    lemma_le_bytes_len(index as nat, 8);
    lemma_le_bytes_len(total, 8);
    lemma_le_bytes_len(payload.len(), 8);
    lemma_le_round_trip(index as nat, 8);
    lemma_le_round_trip(total, 8);
    lemma_le_round_trip(payload.len(), 8);
    reveal_with_fuel(first_value, 4);
    assert(all.skip(1)[0] == all[1]);
    assert(all.skip(1).skip(1)[0] == all[2]);
}

/// What the chunks up to one carry, and then that one, is what the chunks up to the next carry.
pub proof fn lemma_chunk_parts_join(payload: Seq<u8>, room: nat, index: int)
    requires
        room > 0,
        payload.len() > 0,
        0 <= index < chunk_count(payload.len(), room),
    ensures
        carried(payload, room, index) + chunk_part(payload, room, index) == carried(
            payload,
            room,
            index + 1,
        ),
        carried(payload, room, 0) == Seq::<u8>::empty(),
        carried(payload, room, chunk_count(payload.len(), room) as int) == payload,
{
    lemma_chunk_count(payload.len(), room);
    assert(index * room < payload.len());
    assert((index + 1) * room == index * room + room) by (nonlinear_arith);
    assert(0 * room == 0) by (nonlinear_arith);
    assert(carried(payload, room, index) + chunk_part(payload, room, index) =~= carried(
        payload,
        room,
        index + 1,
    ));
    assert(carried(payload, room, 0) =~= Seq::<u8>::empty());
    assert(carried(payload, room, chunk_count(payload.len(), room) as int) =~= payload);
}

/// What the first chunks of a message carry together.
pub open spec fn carried(payload: Seq<u8>, room: nat, count: int) -> Seq<u8> {
    if count * room < payload.len() {
        payload.take(count * room)
    } else {
        payload
    }
}

/// A sequence number comes before those that are less than half the range ahead of it, and before
/// no others.
pub proof fn law_sequence_order_goes_by_distance(left: u64, ahead: int)
    requires
        0 <= ahead < 0x1_0000_0000_0000_0000,
    ensures
        seq_precedes(left, ((left + ahead) % 0x1_0000_0000_0000_0000) as u64) <==> 0 < ahead
            < 0x8000_0000_0000_0000,
{
}

} // verus!
