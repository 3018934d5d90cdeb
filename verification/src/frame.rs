//! The frame layout: a fixed header, typed metadata items and a payload.

use crate::bytes::{
    copy_range, le_at, le_bytes, lemma_byte_ranges, lemma_le_at, lemma_le_bytes_len,
    lemma_le_round_trip, push_u16, push_u32, push_u64, read_u16, read_u32, read_u64, splice,
    spliced,
};
use crate::checksum::{checksum32, fnv1a};
use crate::error::{DslineError, ProtocolError};
use vstd::prelude::*;

verus! {

pub const FRAME_MAGIC: u32 = 0x4453_4c4e;

pub const FRAME_VERSION: u16 = 1;

pub const FRAME_HEADER_LEN: usize = 50;

pub const TLV_HEADER_LEN: usize = 6;

pub const FRAME_FLAG_CHUNKED: u16 = 0x0001;

pub const FRAME_FLAG_CHUNK_START: u16 = 0x0002;

pub const FRAME_FLAG_CHUNK_END: u16 = 0x0004;

pub const TLV_CHUNK_INDEX: u16 = 100;

pub const TLV_CHUNK_TOTAL: u16 = 101;

pub const TLV_CHUNK_MESSAGE_LEN: u16 = 102;

/// The three chunk items, each with a value of eight bytes.
pub const CHUNK_METADATA_LEN: usize = (TLV_HEADER_LEN + 8) * 3;

/// What a frame carries.
#[derive(Debug, Clone, Copy, PartialEq, Eq, Structural)]
pub enum FrameKind {
    Bytes,
    Ndarray,
    Arrow,
    Control,
}

impl FrameKind {
    /// The number that stands for a kind in a frame header.
    pub open spec fn spec_code(self) -> u16 {
        match self {
            FrameKind::Bytes => 1,
            FrameKind::Ndarray => 2,
            FrameKind::Arrow => 3,
            FrameKind::Control => 4,
        }
    }

    /// The number that stands for this kind in a frame header.
    pub fn code(self) -> (code: u16)
        ensures
            code == self.spec_code(),
    {
        match self {
            FrameKind::Bytes => 1,
            FrameKind::Ndarray => 2,
            FrameKind::Arrow => 3,
            FrameKind::Control => 4,
        }
    }

    /// The kind that a number stands for.
    pub fn try_from(value: u16) -> (r: Result<FrameKind, ProtocolError>)
        ensures
            r matches Ok(kind) ==> kind.spec_code() == value,
            r is Err <==> !(1 <= value <= 4),
            r matches Err(e) ==> e == ProtocolError::InvalidFrameKind(value),
    {
        match value {
            1 => Ok(FrameKind::Bytes),
            2 => Ok(FrameKind::Ndarray),
            3 => Ok(FrameKind::Arrow),
            4 => Ok(FrameKind::Control),
            other => Err(ProtocolError::InvalidFrameKind(other)),
        }
    }
}

/// The fixed part of a frame header.
#[derive(Debug, Clone, PartialEq, Eq)]
pub struct FrameHeader {
    pub flags: u16,
    pub kind: FrameKind,
    pub header_len: u32,
    pub payload_len: u64,
    pub seq: u64,
    pub timestamp_ns: u64,
    pub schema_hash: u64,
    pub checksum: u32,
}

/// A typed item between the fixed header and the payload.
#[derive(Debug, Clone, PartialEq, Eq)]
pub struct Metadata {
    pub ty: u16,
    pub value: Vec<u8>,
}

/// What a metadata item holds.
#[verifier::ext_equal]
pub struct MetadataView {
    pub ty: u16,
    pub value: Seq<u8>,
}

impl View for Metadata {
    type V = MetadataView;

    open spec fn view(&self) -> MetadataView {
        MetadataView { ty: self.ty, value: self.value@ }
    }
}

impl Metadata {
    pub fn new(ty: u16, value: Vec<u8>) -> (item: Metadata)
        ensures
            item@ == (MetadataView { ty, value: value@ }),
    {
        Metadata { ty, value }
    }
}

/// A decoded frame.
#[derive(Debug, Clone, PartialEq, Eq)]
pub struct Frame {
    pub header: FrameHeader,
    pub metadata: Vec<Metadata>,
    pub payload: Vec<u8>,
}

/// What a frame holds.
#[verifier::ext_equal]
pub struct FrameView {
    pub header: FrameHeader,
    pub metadata: Seq<MetadataView>,
    pub payload: Seq<u8>,
}

/// What each item of a list holds.
pub open spec fn items(metadata: Seq<Metadata>) -> Seq<MetadataView> {
    metadata.map_values(|item: Metadata| item@)
}

impl View for Frame {
    type V = FrameView;

    open spec fn view(&self) -> FrameView {
        FrameView { header: self.header, metadata: items(self.metadata@), payload: self.payload@ }
    }
}

/// The bytes of one item: type, length of the value, value.
pub open spec fn item_bytes(item: MetadataView) -> Seq<u8> {
    le_bytes(item.ty as nat, 2) + le_bytes(item.value.len(), 4) + item.value
}

/// The bytes of a list of items.
pub open spec fn metadata_bytes(metadata: Seq<MetadataView>) -> Seq<u8>
    decreases metadata.len(),
{
    if metadata.len() == 0 {
        seq![]
    } else {
        item_bytes(metadata[0]) + metadata_bytes(metadata.skip(1))
    }
}

/// How many bytes a list of items takes.
pub open spec fn metadata_len(metadata: Seq<MetadataView>) -> nat
    decreases metadata.len(),
{
    if metadata.len() == 0 {
        0
    } else {
        TLV_HEADER_LEN as nat + metadata[0].value.len() + metadata_len(metadata.skip(1))
    }
}

/// The length of the header, the metadata included.
pub open spec fn header_len(metadata: Seq<MetadataView>) -> nat {
    FRAME_HEADER_LEN as nat + metadata_len(metadata)
}

/// The header that encoding writes for the given contents.
pub open spec fn header_for(
    kind: FrameKind,
    flags: u16,
    seq: u64,
    timestamp_ns: u64,
    schema_hash: u64,
    metadata: Seq<MetadataView>,
    payload: Seq<u8>,
) -> FrameHeader {
    FrameHeader {
        flags,
        kind,
        header_len: header_len(metadata) as u32,
        payload_len: payload.len() as u64,
        seq,
        timestamp_ns,
        schema_hash,
        checksum: fnv1a(payload),
    }
}

/// The fixed part of a header as bytes.
pub open spec fn header_bytes(header: FrameHeader) -> Seq<u8> {
    le_bytes(FRAME_MAGIC as nat, 4) + le_bytes(FRAME_VERSION as nat, 2) + le_bytes(
        header.flags as nat,
        2,
    ) + le_bytes(header.kind.spec_code() as nat, 2) + le_bytes(header.header_len as nat, 4)
        + le_bytes(header.payload_len as nat, 8) + le_bytes(header.seq as nat, 8) + le_bytes(
        header.timestamp_ns as nat,
        8,
    ) + le_bytes(header.schema_hash as nat, 8) + le_bytes(header.checksum as nat, 4)
}

/// A frame as bytes.
#[verifier::opaque]
pub open spec fn frame_bytes(frame: FrameView) -> Seq<u8> {
    header_bytes(frame.header) + metadata_bytes(frame.metadata) + frame.payload
}

/// The frame that encoding makes of the given contents.
pub open spec fn frame_for(
    kind: FrameKind,
    flags: u16,
    seq: u64,
    timestamp_ns: u64,
    schema_hash: u64,
    metadata: Seq<MetadataView>,
    payload: Seq<u8>,
) -> FrameView {
    FrameView {
        header: header_for(kind, flags, seq, timestamp_ns, schema_hash, metadata, payload),
        metadata,
        payload,
    }
}

/// A list of items in front of what a later reading step gave.
pub open spec fn with_items(
    front: Seq<MetadataView>,
    rest: Result<Seq<MetadataView>, ProtocolError>,
) -> Result<Seq<MetadataView>, ProtocolError> {
    match rest {
        Ok(back) => Ok(front + back),
        Err(e) => Err(e),
    }
}

/// The items between `offset` and the end of the header, or why they cannot be read.
pub open spec fn parsed_metadata(bytes: Seq<u8>, header_len: int, offset: int) -> Result<
    Seq<MetadataView>,
    ProtocolError,
>
    decreases header_len - offset,
{
    if offset >= header_len {
        Ok(seq![])
    } else if header_len - offset < TLV_HEADER_LEN {
        Err(
            ProtocolError::InvalidMetadataLength {
                offset: offset as usize,
                declared: (header_len - offset) as usize,
            },
        )
    } else {
        let len = le_at(bytes, offset + 2, 4);
        let start = offset + TLV_HEADER_LEN;
        if start + len > header_len {
            Err(
                ProtocolError::InvalidMetadataLength {
                    offset: offset as usize,
                    declared: len as usize,
                },
            )
        } else {
            let item = MetadataView {
                ty: le_at(bytes, offset, 2) as u16,
                value: bytes.subrange(start, start + len),
            };
            with_items(seq![item], parsed_metadata(bytes, header_len, start + len))
        }
    }
}

/// The kind that a header names, if it names one.
pub open spec fn kind_of(code: nat) -> Option<FrameKind> {
    if code == 1 {
        Some(FrameKind::Bytes)
    } else if code == 2 {
        Some(FrameKind::Ndarray)
    } else if code == 3 {
        Some(FrameKind::Arrow)
    } else if code == 4 {
        Some(FrameKind::Control)
    } else {
        None
    }
}

/// The frame that starts a byte sequence, or the first thing wrong with it.
#[verifier::opaque]
pub open spec fn parsed_frame(bytes: Seq<u8>) -> Result<FrameView, ProtocolError> {
    let magic = le_at(bytes, 0, 4);
    let version = le_at(bytes, 4, 2);
    let code = le_at(bytes, 8, 2);
    let header_len = le_at(bytes, 10, 4);
    let payload_len = le_at(bytes, 14, 8);
    let available = bytes.len() - header_len;
    if bytes.len() < FRAME_HEADER_LEN {
        Err(ProtocolError::FrameTooShort { len: bytes.len() as usize, minimum: FRAME_HEADER_LEN })
    } else if magic != FRAME_MAGIC {
        Err(ProtocolError::InvalidMagic(magic as u32))
    } else if version != FRAME_VERSION {
        Err(ProtocolError::UnsupportedVersion(version as u16))
    } else if kind_of(code) is None {
        Err(ProtocolError::InvalidFrameKind(code as u16))
    } else if header_len < FRAME_HEADER_LEN {
        Err(
            ProtocolError::InvalidHeaderLength {
                header_len: header_len as usize,
                minimum: FRAME_HEADER_LEN,
            },
        )
    } else if bytes.len() < header_len {
        Err(
            ProtocolError::FrameTooShort {
                len: bytes.len() as usize,
                minimum: header_len as usize,
            },
        )
    } else if payload_len > available {
        Err(
            ProtocolError::InvalidPayloadLength {
                declared: payload_len as u64,
                available: available as usize,
            },
        )
    } else {
        match parsed_metadata(bytes, header_len as int, FRAME_HEADER_LEN as int) {
            Err(e) => Err(e),
            Ok(metadata) => Ok(
                FrameView {
                    header: FrameHeader {
                        flags: le_at(bytes, 6, 2) as u16,
                        kind: kind_of(code)->0,
                        header_len: header_len as u32,
                        payload_len: payload_len as u64,
                        seq: le_at(bytes, 22, 8) as u64,
                        timestamp_ns: le_at(bytes, 30, 8) as u64,
                        schema_hash: le_at(bytes, 38, 8) as u64,
                        checksum: le_at(bytes, 46, 4) as u32,
                    },
                    metadata,
                    payload: bytes.subrange(header_len as int, (header_len + payload_len) as int),
                },
            ),
        }
    }
}

/// The bytes of a list of items are as many as `metadata_len` says.
proof fn lemma_metadata_len(metadata: Seq<MetadataView>)
    ensures
        metadata_bytes(metadata).len() == metadata_len(metadata),
    decreases metadata.len(),
{
    if metadata.len() > 0 {
        lemma_le_bytes_len(metadata[0].ty as nat, 2);
        lemma_le_bytes_len(metadata[0].value.len(), 4);
        lemma_metadata_len(metadata.skip(1));
    }
}

/// The fixed part of a header takes `FRAME_HEADER_LEN` bytes.
proof fn lemma_header_bytes_len(header: FrameHeader)
    ensures
        header_bytes(header).len() == FRAME_HEADER_LEN,
{
    lemma_le_bytes_len(FRAME_MAGIC as nat, 4);
    lemma_le_bytes_len(FRAME_VERSION as nat, 2);
    lemma_le_bytes_len(header.flags as nat, 2);
    lemma_le_bytes_len(header.kind.spec_code() as nat, 2);
    lemma_le_bytes_len(header.header_len as nat, 4);
    lemma_le_bytes_len(header.payload_len as nat, 8);
    lemma_le_bytes_len(header.seq as nat, 8);
    lemma_le_bytes_len(header.timestamp_ns as nat, 8);
    lemma_le_bytes_len(header.schema_hash as nat, 8);
    lemma_le_bytes_len(header.checksum as nat, 4);
}

/// How many bytes a frame takes.
pub proof fn lemma_frame_bytes_len(frame: FrameView)
    ensures
        frame_bytes(frame).len() == header_len(frame.metadata) + frame.payload.len(),
{
    reveal(frame_bytes);
    lemma_header_bytes_len(frame.header);
    lemma_metadata_len(frame.metadata);
}

/// A list of items is read back from its bytes, whatever stands around them.
proof fn lemma_metadata_round_trip(before: Seq<u8>, metadata: Seq<MetadataView>, after: Seq<u8>)
    requires
        metadata_len(metadata) <= u32::MAX,
    ensures
        parsed_metadata(
            before + metadata_bytes(metadata) + after,
            (before.len() + metadata_len(metadata)) as int,
            before.len() as int,
        ) == Ok::<Seq<MetadataView>, ProtocolError>(metadata),
    decreases metadata.len(),
{
    let bytes = before + metadata_bytes(metadata) + after;
    let end = (before.len() + metadata_len(metadata)) as int;
    if metadata.len() == 0 {
        assert(metadata =~= seq![]);
    } else {
        let item = metadata[0];
        let rest = metadata.skip(1);
        let offset = before.len() as int;
        let start = offset + TLV_HEADER_LEN;
        let len = item.value.len();
        lemma_byte_ranges();
        lemma_le_bytes_len(item.ty as nat, 2);
        lemma_le_bytes_len(len, 4);
        assert(le_at(bytes, offset, 2) == item.ty) by {
            let tail = le_bytes(len, 4) + item.value + metadata_bytes(rest) + after;
            assert(bytes =~= before + le_bytes(item.ty as nat, 2) + tail);
            lemma_le_at(before, item.ty as nat, 2, tail);
        }
        assert(le_at(bytes, offset + 2, 4) == len) by {
            let head = before + le_bytes(item.ty as nat, 2);
            let tail = item.value + metadata_bytes(rest) + after;
            assert(bytes =~= head + le_bytes(len, 4) + tail);
            lemma_le_at(head, len, 4, tail);
        }
        assert(bytes.subrange(start, start + len) =~= item.value);
        let head = before + item_bytes(item);
        lemma_metadata_round_trip(head, rest, after);
        assert(bytes =~= head + metadata_bytes(rest) + after);
        assert(metadata =~= seq![item] + rest);
    }
}

/// The fields of a header are found in its bytes, whatever comes after them.
proof fn lemma_header_fields(header: FrameHeader, after: Seq<u8>)
    ensures
        ({
            let bytes = header_bytes(header) + after;
            &&& le_at(bytes, 0, 4) == FRAME_MAGIC
            &&& le_at(bytes, 4, 2) == FRAME_VERSION
            &&& le_at(bytes, 6, 2) == header.flags
            &&& le_at(bytes, 8, 2) == header.kind.spec_code()
            &&& le_at(bytes, 10, 4) == header.header_len
            &&& le_at(bytes, 14, 8) == header.payload_len
            &&& le_at(bytes, 22, 8) == header.seq
            &&& le_at(bytes, 30, 8) == header.timestamp_ns
            &&& le_at(bytes, 38, 8) == header.schema_hash
            &&& le_at(bytes, 46, 4) == header.checksum
        }),
{
    lemma_header_bytes_len(header);
    lemma_byte_ranges();
    let bytes = header_bytes(header) + after;
    let f0 = le_bytes(FRAME_MAGIC as nat, 4);
    let f1 = le_bytes(FRAME_VERSION as nat, 2);
    let f2 = le_bytes(header.flags as nat, 2);
    let f3 = le_bytes(header.kind.spec_code() as nat, 2);
    let f4 = le_bytes(header.header_len as nat, 4);
    let f5 = le_bytes(header.payload_len as nat, 8);
    let f6 = le_bytes(header.seq as nat, 8);
    let f7 = le_bytes(header.timestamp_ns as nat, 8);
    let f8 = le_bytes(header.schema_hash as nat, 8);
    let f9 = le_bytes(header.checksum as nat, 4);
    lemma_le_bytes_len(FRAME_MAGIC as nat, 4);
    lemma_le_bytes_len(FRAME_VERSION as nat, 2);
    lemma_le_bytes_len(header.flags as nat, 2);
    lemma_le_bytes_len(header.kind.spec_code() as nat, 2);
    lemma_le_bytes_len(header.header_len as nat, 4);
    lemma_le_bytes_len(header.payload_len as nat, 8);
    lemma_le_bytes_len(header.seq as nat, 8);
    lemma_le_bytes_len(header.timestamp_ns as nat, 8);
    lemma_le_bytes_len(header.schema_hash as nat, 8);
    lemma_le_bytes_len(header.checksum as nat, 4);
    lemma_le_round_trip(FRAME_MAGIC as nat, 4);
    lemma_le_round_trip(FRAME_VERSION as nat, 2);
    lemma_le_round_trip(header.flags as nat, 2);
    lemma_le_round_trip(header.kind.spec_code() as nat, 2);
    lemma_le_round_trip(header.header_len as nat, 4);
    lemma_le_round_trip(header.payload_len as nat, 8);
    lemma_le_round_trip(header.seq as nat, 8);
    lemma_le_round_trip(header.timestamp_ns as nat, 8);
    lemma_le_round_trip(header.schema_hash as nat, 8);
    lemma_le_round_trip(header.checksum as nat, 4);
    assert(bytes.subrange(0, 4) =~= f0);
    assert(bytes.subrange(4, 6) =~= f1);
    assert(bytes.subrange(6, 8) =~= f2);
    assert(bytes.subrange(8, 10) =~= f3);
    assert(bytes.subrange(10, 14) =~= f4);
    assert(bytes.subrange(14, 22) =~= f5);
    assert(bytes.subrange(22, 30) =~= f6);
    assert(bytes.subrange(30, 38) =~= f7);
    assert(bytes.subrange(38, 46) =~= f8);
    assert(bytes.subrange(46, 50) =~= f9);
}

/// Bytes after a frame do not change what is decoded.
pub proof fn law_frame_ignores_trailing_bytes(
    kind: FrameKind,
    flags: u16,
    seq: u64,
    timestamp_ns: u64,
    schema_hash: u64,
    metadata: Seq<MetadataView>,
    payload: Seq<u8>,
    after: Seq<u8>,
)
    requires
        header_len(metadata) <= u32::MAX,
        payload.len() <= u64::MAX,
    ensures
        ({
            let frame = frame_for(
                kind,
                flags,
                seq,
                timestamp_ns,
                schema_hash,
                metadata,
                payload,
            );
            parsed_frame(frame_bytes(frame) + after) == Ok::<FrameView, ProtocolError>(frame)
        }),
{
    let frame = frame_for(kind, flags, seq, timestamp_ns, schema_hash, metadata, payload);
    reveal(frame_bytes);
    reveal(parsed_frame);
    let bytes = frame_bytes(frame) + after;
    let header = header_bytes(frame.header);
    lemma_header_bytes_len(frame.header);
    lemma_metadata_len(metadata);
    lemma_header_fields(frame.header, metadata_bytes(metadata) + payload + after);
    assert(bytes =~= header + (metadata_bytes(metadata) + payload + after));
    lemma_metadata_round_trip(header, metadata, payload + after);
    assert(bytes =~= header + metadata_bytes(metadata) + (payload + after));
    assert(bytes.subrange(
        header_len(metadata) as int,
        (header_len(metadata) + payload.len()) as int,
    ) =~= payload);
}

/// Decoding gives back every field, item and payload byte that encoding wrote.
pub proof fn law_frame_round_trip(
    kind: FrameKind,
    flags: u16,
    seq: u64,
    timestamp_ns: u64,
    schema_hash: u64,
    metadata: Seq<MetadataView>,
    payload: Seq<u8>,
)
    requires
        header_len(metadata) <= u32::MAX,
        payload.len() <= u64::MAX,
    ensures
        ({
            let frame = frame_for(
                kind,
                flags,
                seq,
                timestamp_ns,
                schema_hash,
                metadata,
                payload,
            );
            parsed_frame(frame_bytes(frame)) == Ok::<FrameView, ProtocolError>(frame)
        }),
{
    let frame = frame_for(kind, flags, seq, timestamp_ns, schema_hash, metadata, payload);
    law_frame_ignores_trailing_bytes(
        kind,
        flags,
        seq,
        timestamp_ns,
        schema_hash,
        metadata,
        payload,
        seq![],
    );
    assert(frame_bytes(frame) + seq![] =~= frame_bytes(frame));
}

/// How many bytes the items take, if that can be counted.
fn counted_metadata_len(metadata: &[Metadata]) -> (r: Option<usize>)
    ensures
        r matches Some(len) ==> len == metadata_len(items(metadata@)),
        r is None ==> metadata_len(items(metadata@)) > usize::MAX,
{
    let ghost all = items(metadata@);
    let mut total: usize = 0;
    let mut i: usize = 0;
    proof {
        assert(all.skip(0) =~= all);
    }
    while i < metadata.len()
        invariant
            i <= metadata@.len(),
            all == items(metadata@),
            total + metadata_len(all.skip(i as int)) == metadata_len(all),
        decreases metadata@.len() - i,
    {
        proof {
            assert(all.skip(i as int).skip(1) =~= all.skip(i + 1));
        }
        let value_len: usize = metadata[i].value.len();
        match total.checked_add(TLV_HEADER_LEN) {
            None => {
                return None;
            },
            Some(sum) => match sum.checked_add(value_len) {
                None => {
                    return None;
                },
                Some(sum) => {
                    total = sum;
                },
            },
        }
        i += 1;
    }
    Some(total)
}

/// Encodes a frame. It fails exactly when the header is longer than its length field can tell.
pub fn encode_frame(
    kind: FrameKind,
    flags: u16,
    seq: u64,
    timestamp_ns: u64,
    schema_hash: u64,
    metadata: &[Metadata],
    payload: &[u8],
) -> (r: Result<Vec<u8>, DslineError>)
    ensures
        r is Ok <==> header_len(items(metadata@)) <= u32::MAX,
        r matches Ok(bytes) ==> bytes@ == frame_bytes(
            frame_for(
                kind,
                flags,
                seq,
                timestamp_ns,
                schema_hash,
                items(metadata@),
                payload@,
            ),
        ),
        r matches Err(e) ==> e == DslineError::Protocol(ProtocolError::HeaderLengthOverflow),
{
    let ghost all = items(metadata@);
    let metadata_len: usize = match counted_metadata_len(metadata) {
        Some(len) => len,
        None => {
            return Err(DslineError::Protocol(ProtocolError::HeaderLengthOverflow));
        },
    };
    let header_len: usize = match FRAME_HEADER_LEN.checked_add(metadata_len) {
        Some(len) => len,
        None => {
            return Err(DslineError::Protocol(ProtocolError::HeaderLengthOverflow));
        },
    };
    if header_len > u32::MAX as usize {
        return Err(DslineError::Protocol(ProtocolError::HeaderLengthOverflow));
    }
    let mut out: Vec<u8> = Vec::new();
    push_u32(&mut out, FRAME_MAGIC);
    push_u16(&mut out, FRAME_VERSION);
    push_u16(&mut out, flags);
    push_u16(&mut out, kind.code());
    push_u32(&mut out, header_len as u32);
    push_u64(&mut out, payload.len() as u64);
    push_u64(&mut out, seq);
    push_u64(&mut out, timestamp_ns);
    push_u64(&mut out, schema_hash);
    push_u32(&mut out, checksum32(payload));
    let ghost frame = frame_for(kind, flags, seq, timestamp_ns, schema_hash, all, payload@);
    proof {
        assert(out@ =~= header_bytes(frame.header));
        assert(all.skip(0) =~= all);
    }
    let mut i: usize = 0;
    while i < metadata.len()
        invariant
            i <= metadata@.len(),
            all == items(metadata@),
            crate::frame::header_len(all) <= u32::MAX,
            out@ + metadata_bytes(all.skip(i as int)) == header_bytes(frame.header)
                + metadata_bytes(all),
            metadata_bytes(all.skip(i as int)).len() <= metadata_bytes(all).len(),
        decreases metadata@.len() - i,
    {
        let item = &metadata[i];
        proof {
            lemma_metadata_len(all);
            lemma_le_bytes_len(item.ty as nat, 2);
            lemma_le_bytes_len(item.value@.len(), 4);
            assert(all.skip(i as int).skip(1) =~= all.skip(i + 1));
            assert(all.skip(i as int)[0] == item@);
        }
        let ghost before = out@;
        push_u16(&mut out, item.ty);
        push_u32(&mut out, item.value.len() as u32);
        out.extend_from_slice(item.value.as_slice());
        proof {
            assert(out@ =~= before + item_bytes(item@));
            assert(out@ + metadata_bytes(all.skip(i + 1)) =~= before + metadata_bytes(
                all.skip(i as int),
            ));
        }
        i += 1;
    }
    out.extend_from_slice(payload);
    proof {
        reveal(frame_bytes);
        assert(all.skip(i as int) =~= seq![]);
        assert(out@ =~= frame_bytes(frame));
    }
    Ok(out)
}

/// Decodes the frame that starts a byte sequence.
pub fn decode_frame(bytes: &[u8]) -> (r: Result<Frame, DslineError>)
    ensures
        match parsed_frame(bytes@) {
            Ok(frame) => r is Ok && r->Ok_0@ == frame,
            Err(e) => r == Err::<Frame, DslineError>(DslineError::Protocol(e)),
        },
{
    proof {
        reveal(parsed_frame);
    }
    if bytes.len() < FRAME_HEADER_LEN {
        return Err(
            DslineError::Protocol(
                ProtocolError::FrameTooShort { len: bytes.len(), minimum: FRAME_HEADER_LEN },
            ),
        );
    }
    let magic: u32 = read_u32(bytes, 0);
    if magic != FRAME_MAGIC {
        return Err(DslineError::Protocol(ProtocolError::InvalidMagic(magic)));
    }
    let version: u16 = read_u16(bytes, 4);
    if version != FRAME_VERSION {
        return Err(DslineError::Protocol(ProtocolError::UnsupportedVersion(version)));
    }
    let flags: u16 = read_u16(bytes, 6);
    let kind = match FrameKind::try_from(read_u16(bytes, 8)) {
        Ok(kind) => kind,
        Err(e) => {
            return Err(DslineError::Protocol(e));
        },
    };
    let header_len: usize = read_u32(bytes, 10) as usize;
    if header_len < FRAME_HEADER_LEN {
        return Err(
            DslineError::Protocol(
                ProtocolError::InvalidHeaderLength { header_len, minimum: FRAME_HEADER_LEN },
            ),
        );
    }
    if bytes.len() < header_len {
        return Err(
            DslineError::Protocol(
                ProtocolError::FrameTooShort { len: bytes.len(), minimum: header_len },
            ),
        );
    }
    let payload_len: u64 = read_u64(bytes, 14);
    let available: usize = bytes.len() - header_len;
    if payload_len > available as u64 {
        return Err(
            DslineError::Protocol(
                ProtocolError::InvalidPayloadLength { declared: payload_len, available },
            ),
        );
    }
    let seq: u64 = read_u64(bytes, 22);
    let timestamp_ns: u64 = read_u64(bytes, 30);
    let schema_hash: u64 = read_u64(bytes, 38);
    let checksum: u32 = read_u32(bytes, 46);
    let metadata = match decode_metadata(bytes, header_len) {
        Ok(metadata) => metadata,
        Err(e) => {
            return Err(DslineError::Protocol(e));
        },
    };
    let payload_end: usize = header_len + payload_len as usize;
    let payload = copy_range(bytes, header_len, payload_end);
    Ok(
        Frame {
            header: FrameHeader {
                flags,
                kind,
                header_len: header_len as u32,
                payload_len,
                seq,
                timestamp_ns,
                schema_hash,
                checksum,
            },
            metadata,
            payload,
        },
    )
}

/// Reads the items between the fixed header and `header_len`.
fn decode_metadata(bytes: &[u8], header_len: usize) -> (r: Result<Vec<Metadata>, ProtocolError>)
    requires
        FRAME_HEADER_LEN <= header_len <= bytes@.len(),
    ensures
        match parsed_metadata(bytes@, header_len as int, FRAME_HEADER_LEN as int) {
            Ok(metadata) => r is Ok && items(r->Ok_0@) == metadata,
            Err(e) => r == Err::<Vec<Metadata>, ProtocolError>(e),
        },
{
    let mut list: Vec<Metadata> = Vec::new();
    let mut offset: usize = FRAME_HEADER_LEN;
    let ghost whole = parsed_metadata(bytes@, header_len as int, FRAME_HEADER_LEN as int);
    proof {
        assert(whole matches Ok(all) ==> items(list@) + all =~= all);
    }
    while offset < header_len
        invariant
            offset <= header_len <= bytes@.len(),
            whole == with_items(
                items(list@),
                parsed_metadata(bytes@, header_len as int, offset as int),
            ),
            whole == parsed_metadata(bytes@, header_len as int, FRAME_HEADER_LEN as int),
        decreases header_len - offset,
    {
        assert(header_len <= bytes.len());
        if header_len - offset < TLV_HEADER_LEN {
            return Err(
                ProtocolError::InvalidMetadataLength { offset, declared: header_len - offset },
            );
        }
        let ty: u16 = read_u16(bytes, offset);
        let len: usize = read_u32(bytes, offset + 2) as usize;
        let value_start: usize = offset + TLV_HEADER_LEN;
        if len > header_len - value_start {
            return Err(ProtocolError::InvalidMetadataLength { offset, declared: len });
        }
        let value_end: usize = value_start + len;
        let value = copy_range(bytes, value_start, value_end);
        let item = Metadata { ty, value };
        let ghost before = items(list@);
        list.push(item);
        proof {
            assert(items(list@) =~= before + seq![item@]);
            let rest = parsed_metadata(bytes@, header_len as int, value_end as int);
            assert(rest matches Ok(back) ==> before + (seq![item@] + back) =~= items(list@) + back);
        }
        offset = value_end;
    }
    proof {
        assert(items(list@) + Seq::<MetadataView>::empty() =~= items(list@));
    }
    Ok(list)
}

/// Where the sequence number stands in a header.
pub const SEQ_OFFSET: usize = 22;

/// Where the checksum stands in a header.
pub const CHECKSUM_OFFSET: usize = 46;

/// An encoded frame whose declared checksum is off by one.
pub open spec fn misdeclared(frame: Seq<u8>) -> Seq<u8> {
    let next = (le_at(frame, CHECKSUM_OFFSET as int, 4) + 1) % 0x1_0000_0000;
    spliced(frame, CHECKSUM_OFFSET as int, le_bytes(next, 4))
}

/// An encoded frame that declares another sequence number.
pub open spec fn renumbered(frame: Seq<u8>, seq: u64) -> Seq<u8> {
    spliced(frame, SEQ_OFFSET as int, le_bytes(seq as nat, 8))
}

/// Makes the checksum that an encoded frame declares wrong.
pub fn misdeclare_checksum(frame: &[u8]) -> (out: Vec<u8>)
    requires
        frame@.len() >= FRAME_HEADER_LEN,
    ensures
        out@ == misdeclared(frame@),
        out@.len() == frame@.len(),
{
    let checksum: u32 = read_u32(frame, CHECKSUM_OFFSET);
    let mut field: Vec<u8> = Vec::new();
    push_u32(&mut field, checksum.wrapping_add(1));
    proof {
        let next = (checksum as nat + 1) % 0x1_0000_0000;
        lemma_le_bytes_len(next, 4);
        assert(field@ =~= le_bytes(next, 4));
    }
    splice(frame, CHECKSUM_OFFSET, field.as_slice())
}

/// Gives an encoded frame another sequence number.
pub fn renumber(frame: &[u8], seq: u64) -> (out: Vec<u8>)
    requires
        frame@.len() >= FRAME_HEADER_LEN,
    ensures
        out@ == renumbered(frame@, seq),
        out@.len() == frame@.len(),
{
    let mut field: Vec<u8> = Vec::new();
    push_u64(&mut field, seq);
    proof {
        lemma_le_bytes_len(seq as nat, 8);
        assert(field@ =~= le_bytes(seq as nat, 8));
    }
    splice(frame, SEQ_OFFSET, field.as_slice())
}

/// What a frame is said to hold is what its fields hold.
pub proof fn law_view_shows_the_fields(frame: Frame, at: int)
    ensures
        frame@.header == frame.header,
        frame@.payload == frame.payload@,
        frame@.metadata.len() == frame.metadata@.len(),
        0 <= at < frame.metadata@.len() ==> frame@.metadata[at].ty == frame.metadata@[at].ty
            && frame@.metadata[at].value == frame.metadata@[at].value@,
{
}

} // verus!
