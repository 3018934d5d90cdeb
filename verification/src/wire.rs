//! Frames and slot headers byte by byte: which byte says what.

use crate::bytes::{
    le_at, le_bytes, le_value, lemma_byte_ranges, lemma_le_bytes_len, lemma_le_round_trip,
    spliced,
};
use crate::checksum::fnv1a;
use crate::chunk::{law_size_limits_by_the_numbers, lemma_chunk_count, message_frames};
use crate::error::ProtocolError;
use crate::frame::{
    frame_bytes, frame_for, header_len, law_frame_ignores_trailing_bytes, lemma_frame_bytes_len,
    metadata_len, misdeclared, parsed_frame, parsed_metadata, renumbered, FrameKind, FrameView,
    MetadataView,
};
use crate::persistent::{law_slot_header_round_trip, slot_header_bytes, slot_of};
use crate::slot::SlotState;
use crate::spsc::SpscConfig;
use vstd::prelude::*;

verus! {

/// The number in two bytes.
pub open spec fn two(bytes: Seq<u8>, at: int) -> int {
    bytes[at] + 0x100 * bytes[at + 1]
}

/// The number in four bytes.
pub open spec fn four(bytes: Seq<u8>, at: int) -> int {
    bytes[at] + 0x100 * bytes[at + 1] + 0x1_0000 * bytes[at + 2] + 0x100_0000 * bytes[at + 3]
}

/// The number in eight bytes.
pub open spec fn eight(bytes: Seq<u8>, at: int) -> int {
    four(bytes, at) + 0x1_0000_0000 * four(bytes, at + 4)
}

/// How many bytes a list of items takes: for each six, and those of its value.
pub open spec fn items_len(items: Seq<MetadataView>) -> int
    decreases items.len(),
{
    if items.len() == 0 {
        0
    } else {
        6 + items[0].value.len() + items_len(items.skip(1))
    }
}

/// Whether items stand in a byte sequence from one place to another: of each the type in two
/// bytes, the length of the value in four, and the value.
pub open spec fn items_stand(bytes: Seq<u8>, from: int, to: int, items: Seq<MetadataView>) -> bool
    decreases items.len(),
{
    if items.len() == 0 {
        from == to
    } else {
        let len = items[0].value.len();
        &&& from + 6 + len <= to
        &&& two(bytes, from) == items[0].ty
        &&& four(bytes, from + 2) == len
        &&& bytes.subrange(from + 6, from + 6 + len) == items[0].value
        &&& items_stand(bytes, from + 6 + len, to, items.skip(1))
    }
}

/// The number of a kind of frame.
pub open spec fn kind_number(kind: FrameKind) -> int {
    match kind {
        FrameKind::Bytes => 1,
        FrameKind::Ndarray => 2,
        FrameKind::Arrow => 3,
        FrameKind::Control => 4,
    }
}

/// The number of a slot state.
pub open spec fn state_number(state: SlotState) -> int {
    match state {
        SlotState::Free => 0,
        SlotState::Writing => 1,
        SlotState::Committed => 2,
        SlotState::Pinned => 3,
        SlotState::Corrupted => 4,
    }
}

/// The numbers in bytes are those that the bytes stand for, least significant byte first.
pub proof fn lemma_numbers(bytes: Seq<u8>, at: int)
    requires
        0 <= at,
    ensures
        at + 2 <= bytes.len() ==> le_at(bytes, at, 2) == two(bytes, at),
        at + 4 <= bytes.len() ==> le_at(bytes, at, 4) == four(bytes, at),
        at + 8 <= bytes.len() ==> le_at(bytes, at, 8) == eight(bytes, at),
{
    reveal_with_fuel(le_value, 9);
    if at + 2 <= bytes.len() {
        let part = bytes.subrange(at, at + 2);
        assert(part.skip(1).skip(1).len() == 0);
    }
    if at + 4 <= bytes.len() {
        let part = bytes.subrange(at, at + 4);
        assert(part.skip(1)[0] == part[1]);
        assert(part.skip(1).skip(1)[0] == part[2]);
        assert(part.skip(1).skip(1).skip(1)[0] == part[3]);
        assert(part.skip(1).skip(1).skip(1).skip(1).len() == 0);
    }
    if at + 8 <= bytes.len() {
        let part = bytes.subrange(at, at + 8);
        let high = part.skip(1).skip(1).skip(1).skip(1);
        assert(part.skip(1)[0] == part[1]);
        assert(part.skip(1).skip(1)[0] == part[2]);
        assert(part.skip(1).skip(1).skip(1)[0] == part[3]);
        assert(high[0] == part[4]);
        assert(high.skip(1)[0] == part[5]);
        assert(high.skip(1).skip(1)[0] == part[6]);
        assert(high.skip(1).skip(1).skip(1)[0] == part[7]);
        assert(high.skip(1).skip(1).skip(1).skip(1).len() == 0);
    }
}

/// The items are as long as they are counted to be.
proof fn lemma_items_len(items: Seq<MetadataView>)
    ensures
        metadata_len(items) == items_len(items),
    decreases items.len(),
{
    if items.len() > 0 {
        lemma_items_len(items.skip(1));
    }
}

/// Items that are read stand where they were read from.
proof fn lemma_items_stand(bytes: Seq<u8>, from: int, to: int)
    requires
        0 <= from <= to <= bytes.len(),
    ensures
        parsed_metadata(bytes, to, from) matches Ok(items) ==> items_stand(bytes, from, to, items),
    decreases to - from,
{
    if from < to && to - from >= 6 {
        lemma_numbers(bytes, from);
        lemma_numbers(bytes, from + 2);
        let len = le_at(bytes, from + 2, 4) as int;
        if from + 6 + len <= to {
            lemma_items_stand(bytes, from + 6 + len, to);
            match parsed_metadata(bytes, to, from + 6 + len) {
                Err(_) => {},
                Ok(rest) => {
                    let item = MetadataView {
                        ty: le_at(bytes, from, 2) as u16,
                        value: bytes.subrange(from + 6, from + 6 + len),
                    };
                    assert((seq![item] + rest).skip(1) =~= rest);
                },
            }
        }
    }
}

/// Items that stand in a byte sequence are read from there.
proof fn lemma_standing_items_are_read(
    bytes: Seq<u8>,
    from: int,
    to: int,
    items: Seq<MetadataView>,
)
    requires
        0 <= from <= to <= bytes.len(),
        items_stand(bytes, from, to, items),
    ensures
        parsed_metadata(bytes, to, from) == Ok::<Seq<MetadataView>, ProtocolError>(items),
    decreases items.len(),
{
    if items.len() > 0 {
        let len = items[0].value.len();
        lemma_numbers(bytes, from);
        lemma_numbers(bytes, from + 2);
        lemma_standing_items_are_read(bytes, from + 6 + len, to, items.skip(1));
        let item = MetadataView {
            ty: le_at(bytes, from, 2) as u16,
            value: bytes.subrange(from + 6, from + 6 + len),
        };
        assert(item == items[0]);
        assert(seq![item] + items.skip(1) =~= items);
    } else {
        assert(items =~= seq![]);
    }
}

/// What is decoded from what was encoded is what encoding was given, field by field.
pub proof fn law_decoded_fields_are_those_encoded(
    kind: FrameKind,
    flags: u16,
    seq: u64,
    timestamp_ns: u64,
    schema_hash: u64,
    metadata: Seq<MetadataView>,
    payload: Seq<u8>,
    after: Seq<u8>,
)
    requires
        50 + items_len(metadata) <= u32::MAX,
        payload.len() <= u64::MAX,
    ensures
        ({
            let bytes = frame_bytes(
                frame_for(kind, flags, seq, timestamp_ns, schema_hash, metadata, payload),
            );
            &&& bytes.len() == 50 + items_len(metadata) + payload.len()
            &&& parsed_frame(bytes + after) matches Ok(frame)
            &&& frame.header.kind == kind
            &&& frame.header.flags == flags
            &&& frame.header.seq == seq
            &&& frame.header.timestamp_ns == timestamp_ns
            &&& frame.header.schema_hash == schema_hash
            &&& frame.header.header_len == 50 + items_len(metadata)
            &&& frame.header.payload_len == payload.len()
            &&& frame.header.checksum == fnv1a(payload)
            &&& frame.metadata == metadata
            &&& frame.payload == payload
        }),
{
    lemma_items_len(metadata);
    law_frame_ignores_trailing_bytes(
        kind,
        flags,
        seq,
        timestamp_ns,
        schema_hash,
        metadata,
        payload,
        after,
    );
    lemma_frame_bytes_len(
        frame_for(kind, flags, seq, timestamp_ns, schema_hash, metadata, payload),
    );
}

/// A header that starts a byte sequence says what its bytes say: the magic number, the version, the
/// flags, the kind, the lengths, the numbers and the checksum, each in its place.
pub open spec fn header_says(bytes: Seq<u8>, frame: FrameView) -> bool {
    &&& bytes.len() >= 50
    &&& four(bytes, 0) == 0x4453_4c4e
    &&& two(bytes, 4) == 1
    &&& two(bytes, 6) == frame.header.flags
    &&& two(bytes, 8) == kind_number(frame.header.kind)
    &&& four(bytes, 10) == frame.header.header_len
    &&& eight(bytes, 14) == frame.header.payload_len
    &&& eight(bytes, 22) == frame.header.seq
    &&& eight(bytes, 30) == frame.header.timestamp_ns
    &&& eight(bytes, 38) == frame.header.schema_hash
    &&& four(bytes, 46) == frame.header.checksum
}

/// A frame is decoded exactly from the bytes that say it: its header, then its items, then its
/// payload; what follows does not matter.
pub proof fn law_frame_is_what_its_bytes_say(bytes: Seq<u8>, frame: FrameView)
    ensures
        parsed_frame(bytes) == Ok::<FrameView, ProtocolError>(frame) <==> {
            let head = frame.header.header_len as int;
            let end = head + frame.header.payload_len;
            &&& header_says(bytes, frame)
            &&& 50 <= head <= end <= bytes.len()
            &&& items_stand(bytes, 50, head, frame.metadata)
            &&& bytes.subrange(head, end) == frame.payload
        },
{
    reveal(parsed_frame);
    if bytes.len() >= 50 {
        lemma_numbers(bytes, 0);
        lemma_numbers(bytes, 4);
        lemma_numbers(bytes, 6);
        lemma_numbers(bytes, 8);
        lemma_numbers(bytes, 10);
        lemma_numbers(bytes, 14);
        lemma_numbers(bytes, 22);
        lemma_numbers(bytes, 30);
        lemma_numbers(bytes, 38);
        lemma_numbers(bytes, 46);
        let head = four(bytes, 10);
        if 50 <= head <= bytes.len() {
            lemma_items_stand(bytes, 50, head);
            if items_stand(bytes, 50, head, frame.metadata) {
                lemma_standing_items_are_read(bytes, 50, head, frame.metadata);
            }
        }
    }
}

/// What is wrong with bytes that are no frame: the first of these that holds.
pub proof fn law_bytes_are_refused_for_a_reason(bytes: Seq<u8>)
    requires
        bytes.len() <= usize::MAX,
    ensures
        bytes.len() < 50 ==> parsed_frame(bytes) == Err::<FrameView, ProtocolError>(
            ProtocolError::FrameTooShort { len: bytes.len() as usize, minimum: 50 },
        ),
        bytes.len() >= 50 ==> {
            let magic = four(bytes, 0);
            let version = two(bytes, 4);
            let kind = two(bytes, 8);
            let head = four(bytes, 10);
            let declared = eight(bytes, 14);
            if magic != 0x4453_4c4e {
                parsed_frame(bytes) == Err::<FrameView, ProtocolError>(
                    ProtocolError::InvalidMagic(magic as u32),
                )
            } else if version != 1 {
                parsed_frame(bytes) == Err::<FrameView, ProtocolError>(
                    ProtocolError::UnsupportedVersion(version as u16),
                )
            } else if kind < 1 || kind > 4 {
                parsed_frame(bytes) == Err::<FrameView, ProtocolError>(
                    ProtocolError::InvalidFrameKind(kind as u16),
                )
            } else if head < 50 {
                parsed_frame(bytes) == Err::<FrameView, ProtocolError>(
                    ProtocolError::InvalidHeaderLength { header_len: head as usize, minimum: 50 },
                )
            } else if bytes.len() < head {
                parsed_frame(bytes) == Err::<FrameView, ProtocolError>(
                    ProtocolError::FrameTooShort {
                        len: bytes.len() as usize,
                        minimum: head as usize,
                    },
                )
            } else if declared > bytes.len() - head {
                parsed_frame(bytes) == Err::<FrameView, ProtocolError>(
                    ProtocolError::InvalidPayloadLength {
                        declared: declared as u64,
                        available: (bytes.len() - head) as usize,
                    },
                )
            } else {
                parsed_frame(bytes) is Ok || parsed_frame(bytes)->Err_0 is InvalidMetadataLength
            }
        },
{
    reveal(parsed_frame);
    if bytes.len() >= 50 {
        lemma_numbers(bytes, 0);
        lemma_numbers(bytes, 4);
        lemma_numbers(bytes, 8);
        lemma_numbers(bytes, 10);
        lemma_numbers(bytes, 14);
        let head = four(bytes, 10);
        if 50 <= head <= bytes.len() {
            lemma_item_errors(bytes, 50, head);
        }
    }
}

/// Items that cannot be read are refused for their length.
proof fn lemma_item_errors(bytes: Seq<u8>, from: int, to: int)
    requires
        0 <= from <= to <= bytes.len(),
    ensures
        parsed_metadata(bytes, to, from) matches Err(e) ==> e is InvalidMetadataLength,
    decreases to - from,
{
    if from < to && to - from >= 6 {
        lemma_numbers(bytes, from + 2);
        let len = le_at(bytes, from + 2, 4) as int;
        if from + 6 + len <= to {
            lemma_item_errors(bytes, from + 6 + len, to);
        }
    }
}

/// Behind items that can be read, what is shorter than the start of an item is refused with the
/// place and what is left, and an item whose value would go beyond the header with the place and
/// the length it declares.
pub proof fn law_broken_item_is_named(
    bytes: Seq<u8>,
    items: Seq<MetadataView>,
    from: int,
    at: int,
    to: int,
)
    requires
        0 <= from <= at < to <= bytes.len() <= usize::MAX,
        items_stand(bytes, from, at, items),
        to - at < 6 || at + 6 + four(bytes, at + 2) > to,
    ensures
        parsed_metadata(bytes, to, from) == Err::<Seq<MetadataView>, ProtocolError>(
            ProtocolError::InvalidMetadataLength {
                offset: at as usize,
                declared: if to - at < 6 {
                    (to - at) as usize
                } else {
                    four(bytes, at + 2) as usize
                },
            },
        ),
    decreases items.len(),
{
    lemma_numbers(bytes, from);
    lemma_numbers(bytes, from + 2);
    if items.len() > 0 {
        lemma_numbers(bytes, at + 2);
        law_broken_item_is_named(
            bytes,
            items.skip(1),
            from + 6 + items[0].value.len(),
            at,
            to,
        );
    }
}

/// A slot header is a state in one byte, a sequence number in eight and a length in four, and what
/// a slot says is what those bytes say.
pub proof fn law_slot_header_layout(bytes: Seq<u8>)
    requires
        bytes.len() >= 13,
    ensures
        slot_of(bytes).seq == eight(bytes, 1),
        slot_of(bytes).len == four(bytes, 9),
        slot_of(bytes).body == bytes.skip(13),
        bytes[0] <= 4 ==> state_number(slot_of(bytes).state) == bytes[0],
        bytes[0] > 4 ==> slot_of(bytes).state == SlotState::Corrupted,
{
    lemma_numbers(bytes, 1);
    lemma_numbers(bytes, 9);
}

/// A slot header that is written says what it was given, in these bytes.
pub proof fn law_written_slot_header(state: SlotState, seq: u64, len: nat)
    requires
        len < 0x1_0000_0000,
    ensures
        ({
            let bytes = slot_header_bytes(state, seq, len);
            &&& bytes.len() == 13
            &&& bytes[0] == state_number(state)
            &&& eight(bytes, 1) == seq
            &&& four(bytes, 9) == len
        }),
{
    let bytes = slot_header_bytes(state, seq, len);
    let none = Seq::<u8>::empty();
    law_slot_header_round_trip(state, seq, len, none);
    assert(bytes + none =~= bytes);
    lemma_numbers(bytes, 1);
    lemma_numbers(bytes, 9);
}

/// The header of a frame with metadata is as long as its fifty bytes and the items.
pub proof fn law_header_length(metadata: Seq<MetadataView>)
    ensures
        header_len(metadata) == 50 + items_len(metadata),
{
    lemma_items_len(metadata);
}

/// A number in eight bytes is that number.
proof fn lemma_eight(value: nat)
    requires
        value < 0x1_0000_0000_0000_0000,
    ensures
        le_bytes(value, 8).len() == 8,
        eight(le_bytes(value, 8), 0) == value,
{
    let bytes = le_bytes(value, 8);
    lemma_byte_ranges();
    lemma_le_bytes_len(value, 8);
    lemma_le_round_trip(value, 8);
    lemma_numbers(bytes, 0);
    assert(bytes.subrange(0, 8) =~= bytes);
}

/// A message that fits in a slot is one frame without flags and items. A longer one is cut into
/// parts of `slot_size - 42` bytes, the last one shorter where need be; each part is a frame that
/// is marked as a chunk, as the first and as the last where it is that, and labelled with its
/// index, the number of parts and the length of the message.
pub proof fn law_message_is_cut_into_frames(
    config: SpscConfig,
    seq: u64,
    payload: Seq<u8>,
    index: int,
)
    requires
        config.slot_size > 0,
        payload.len() <= config.slot_size || config.slot_size > 42,
        payload.len() <= usize::MAX,
    ensures
        ({
            let frames = message_frames(config, seq, payload);
            let part = config.slot_size - 42;
            let count = (payload.len() + part - 1) / part;
            if payload.len() <= config.slot_size {
                let frame = frames[0];
                &&& frames.len() == 1
                &&& frame.header.kind is Bytes
                &&& frame.header.flags == 0
                &&& frame.header.seq == seq
                &&& frame.header.timestamp_ns == 0
                &&& frame.header.schema_hash == 0
                &&& frame.header.checksum == fnv1a(payload)
                &&& frame.metadata.len() == 0
                &&& frame.payload == payload
            } else {
                &&& frames.len() == count
                &&& 0 <= index < count ==> {
                    let frame = frames[index];
                    let end = if (index + 1) * part < payload.len() {
                        (index + 1) * part
                    } else {
                        payload.len() as int
                    };
                    let labels = frame.metadata;
                    &&& frame.header.kind is Bytes
                    &&& frame.header.flags == 1 + (if index == 0 {
                        2int
                    } else {
                        0
                    }) + (if index == count - 1 {
                        4int
                    } else {
                        0
                    })
                    &&& frame.header.seq == seq
                    &&& frame.header.timestamp_ns == 0
                    &&& frame.header.schema_hash == 0
                    &&& frame.payload == payload.subrange(index * part, end)
                    &&& frame.header.checksum == fnv1a(payload.subrange(index * part, end))
                    &&& labels.len() == 3
                    &&& labels[0].ty == 100 && labels[1].ty == 101 && labels[2].ty == 102
                    &&& labels[0].value.len() == 8 && eight(labels[0].value, 0) == index
                    &&& labels[1].value.len() == 8 && eight(labels[1].value, 0) == count
                    &&& labels[2].value.len() == 8 && eight(labels[2].value, 0) == payload.len()
                }
            }
        }),
{
    if payload.len() > config.slot_size {
        let part = config.slot_size - 42;
        let count = (payload.len() + part - 1) / part;
        law_size_limits_by_the_numbers(config);
        lemma_chunk_count(payload.len(), part as nat);
        if 0 <= index < count {
            assert(count <= payload.len()) by (nonlinear_arith)
                requires
                    (count - 1) * part < payload.len(),
                    part >= 1,
                    count >= 1,
            ;
            assert((index + 1) * part == index * part + part) by (nonlinear_arith);
            lemma_eight(index as nat);
            lemma_eight(count as nat);
            lemma_eight(payload.len());
        }
    }
}

/// Where the bytes of a field have been replaced, the field says what was put there.
proof fn lemma_replaced(bytes: Seq<u8>, at: int, field: Seq<u8>)
    requires
        0 <= at,
        at + field.len() <= bytes.len(),
    ensures
        spliced(bytes, at, field).len() == bytes.len(),
        spliced(bytes, at, field).subrange(at, at + field.len()) == field,
        forall|i: int|
            0 <= i < bytes.len() && !(at <= i < at + field.len()) ==> #[trigger] spliced(
                bytes,
                at,
                field,
            )[i] == bytes[i],
{
    assert(spliced(bytes, at, field).subrange(at, at + field.len()) =~= field);
}

/// Damage that is done on purpose is where it is meant to be: the checksum, which is then one
/// more, or the sequence number, which is then the one given; all other bytes stay.
pub proof fn law_damage_is_where_it_is_meant(bytes: Seq<u8>, seq: u64)
    requires
        bytes.len() >= 50,
    ensures
        misdeclared(bytes).len() == bytes.len(),
        four(misdeclared(bytes), 46) == (four(bytes, 46) + 1) % 0x1_0000_0000,
        forall|i: int|
            0 <= i < bytes.len() && !(46 <= i < 50) ==> #[trigger] misdeclared(bytes)[i]
                == bytes[i],
        renumbered(bytes, seq).len() == bytes.len(),
        eight(renumbered(bytes, seq), 22) == seq,
        forall|i: int|
            0 <= i < bytes.len() && !(22 <= i < 30) ==> #[trigger] renumbered(bytes, seq)[i]
                == bytes[i],
{
    let next = (le_at(bytes, 46, 4) + 1) % 0x1_0000_0000;
    lemma_byte_ranges();
    lemma_numbers(bytes, 46);
    lemma_le_bytes_len(next, 4);
    lemma_le_round_trip(next, 4);
    lemma_replaced(bytes, 46, le_bytes(next, 4));
    lemma_numbers(misdeclared(bytes), 46);
    lemma_le_bytes_len(seq as nat, 8);
    lemma_le_round_trip(seq as nat, 8);
    lemma_replaced(bytes, 22, le_bytes(seq as nat, 8));
    lemma_numbers(renumbered(bytes, seq), 22);
}

} // verus!
