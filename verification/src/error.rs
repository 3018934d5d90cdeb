//! What can go wrong, and how it is told.

use crate::text::{decimal, hex, push_decimal, push_hex};
use vstd::prelude::*;
use vstd::std_specs::convert::FromSpecImpl;
use vstd::string::*;

verus! {

/// Any error of this library.
#[derive(Debug, Clone, PartialEq, Eq)]
pub enum DslineError {
    Channel(ChannelError),
    Protocol(ProtocolError),
    Transport(TransportError),
}

/// An error of a channel, a slot region or a slot storage.
#[derive(Debug, Clone, PartialEq, Eq)]
pub enum ChannelError {
    Closed,
    BufferFull,
    BufferEmpty,
    MessageTooLarge { len: usize, slot_size: usize },
    CorruptedMessage,
    SequenceMismatch { expected: u64, actual: u64 },
    InvalidConfig(&'static str),
    StorageIo(&'static str),
}

/// An error in the layout of a frame.
#[derive(Debug, Clone, PartialEq, Eq)]
pub enum ProtocolError {
    FrameTooShort { len: usize, minimum: usize },
    InvalidMagic(u32),
    UnsupportedVersion(u16),
    InvalidFrameKind(u16),
    InvalidHeaderLength { header_len: usize, minimum: usize },
    InvalidPayloadLength { declared: u64, available: usize },
    InvalidMetadataLength { offset: usize, declared: usize },
    HeaderLengthOverflow,
}

/// An error in a transport address.
#[derive(Debug, Clone, PartialEq, Eq)]
pub enum TransportError {
    EmptyUrl,
    MissingScheme,
    UnsupportedScheme(String),
    MissingTarget(&'static str),
    InvalidPort(String),
    InvalidQuery(String),
}

impl DslineError {
    /// The text of [`DslineError::message`].
    pub open spec fn text(self) -> Seq<char> {
        match self {
            DslineError::Channel(e) => e.text(),
            DslineError::Protocol(e) => e.text(),
            DslineError::Transport(e) => e.text(),
        }
    }

    /// What went wrong, in words.
    pub fn message(&self) -> (out: String)
        ensures
            out@ == self.text(),
    {
        match self {
            DslineError::Channel(e) => e.message(),
            DslineError::Protocol(e) => e.message(),
            DslineError::Transport(e) => e.message(),
        }
    }
}

/// A text followed by a number in base ten.
pub open spec fn counted(text: Seq<char>, n: nat) -> Seq<char> {
    text + decimal(n)
}

/// Appends a text and a number in base ten.
fn push_counted(out: &mut String, text: &str, n: u64)
    ensures
        final(out)@ == old(out)@ + counted(text@, n as nat),
{
    out.append(text);
    push_decimal(out, n);
    proof {
        assert(out@ =~= old(out)@ + counted(text@, n as nat));
    }
}

/// A string that holds the first text and then the second.
fn joined(first: &str, second: &str) -> (out: String)
    ensures
        out@ == first@ + second@,
{
    let mut out = first.to_owned();
    out.append(second);
    out
}

impl ChannelError {
    /// The text of [`ChannelError::message`].
    pub open spec fn text(self) -> Seq<char> {
        match self {
            ChannelError::Closed => "channel is closed"@,
            ChannelError::BufferFull => "channel buffer is full"@,
            ChannelError::BufferEmpty => "channel buffer is empty"@,
            ChannelError::MessageTooLarge { len, slot_size } => counted(
                "message length "@,
                len as nat,
            ) + counted(" exceeds slot size "@, slot_size as nat),
            ChannelError::CorruptedMessage => "message checksum validation failed"@,
            ChannelError::SequenceMismatch { expected, actual } => counted(
                "expected message sequence "@,
                expected as nat,
            ) + counted(", found "@, actual as nat),
            ChannelError::InvalidConfig(msg) => "invalid channel config: "@ + msg@,
            ChannelError::StorageIo(msg) => "storage I/O error: "@ + msg@,
        }
    }

    /// What went wrong, in words.
    pub fn message(&self) -> (out: String)
        ensures
            out@ == self.text(),
    {
        match self {
            ChannelError::Closed => "channel is closed".to_owned(),
            ChannelError::BufferFull => "channel buffer is full".to_owned(),
            ChannelError::BufferEmpty => "channel buffer is empty".to_owned(),
            ChannelError::MessageTooLarge { len, slot_size } => {
                let mut out = String::new();
                push_counted(&mut out, "message length ", *len as u64);
                push_counted(&mut out, " exceeds slot size ", *slot_size as u64);
                out
            },
            ChannelError::CorruptedMessage => "message checksum validation failed".to_owned(),
            ChannelError::SequenceMismatch { expected, actual } => {
                let mut out = String::new();
                push_counted(&mut out, "expected message sequence ", *expected);
                push_counted(&mut out, ", found ", *actual);
                out
            },
            ChannelError::InvalidConfig(msg) => joined("invalid channel config: ", *msg),
            ChannelError::StorageIo(msg) => joined("storage I/O error: ", *msg),
        }
    }
}

impl ProtocolError {
    /// The text of [`ProtocolError::message`].
    pub open spec fn text(self) -> Seq<char> {
        match self {
            ProtocolError::FrameTooShort { len, minimum } => counted("frame length "@, len as nat)
                + counted(" is shorter than minimum "@, minimum as nat),
            ProtocolError::InvalidMagic(magic) => "invalid frame magic 0x"@ + hex(magic as nat, 8),
            ProtocolError::UnsupportedVersion(version) => counted(
                "unsupported frame protocol version "@,
                version as nat,
            ),
            ProtocolError::InvalidFrameKind(kind) => counted("invalid frame kind "@, kind as nat),
            ProtocolError::InvalidHeaderLength { header_len, minimum } => counted(
                "invalid frame header length "@,
                header_len as nat,
            ) + counted("; minimum is "@, minimum as nat),
            ProtocolError::InvalidPayloadLength { declared, available } => counted(
                "invalid frame payload length "@,
                declared as nat,
            ) + counted("; only "@, available as nat) + " bytes available"@,
            ProtocolError::InvalidMetadataLength { offset, declared } => counted(
                "invalid metadata length "@,
                declared as nat,
            ) + counted(" at frame header offset "@, offset as nat),
            ProtocolError::HeaderLengthOverflow => "frame header length overflow"@,
        }
    }

    /// What went wrong, in words.
    pub fn message(&self) -> (out: String)
        ensures
            out@ == self.text(),
    {
        let mut out = String::new();
        match self {
            ProtocolError::FrameTooShort { len, minimum } => {
                push_counted(&mut out, "frame length ", *len as u64);
                push_counted(&mut out, " is shorter than minimum ", *minimum as u64);
            },
            ProtocolError::InvalidMagic(magic) => {
                out.append("invalid frame magic 0x");
                push_hex(&mut out, *magic, 8);
            },
            ProtocolError::UnsupportedVersion(version) => {
                push_counted(&mut out, "unsupported frame protocol version ", *version as u64);
            },
            ProtocolError::InvalidFrameKind(kind) => {
                push_counted(&mut out, "invalid frame kind ", *kind as u64);
            },
            ProtocolError::InvalidHeaderLength { header_len, minimum } => {
                push_counted(&mut out, "invalid frame header length ", *header_len as u64);
                push_counted(&mut out, "; minimum is ", *minimum as u64);
            },
            ProtocolError::InvalidPayloadLength { declared, available } => {
                push_counted(&mut out, "invalid frame payload length ", *declared);
                push_counted(&mut out, "; only ", *available as u64);
                out.append(" bytes available");
            },
            ProtocolError::InvalidMetadataLength { offset, declared } => {
                push_counted(&mut out, "invalid metadata length ", *declared as u64);
                push_counted(&mut out, " at frame header offset ", *offset as u64);
            },
            ProtocolError::HeaderLengthOverflow => {
                out.append("frame header length overflow");
            },
        }
        proof {
            assert(out@ =~= self.text());
        }
        out
    }
}

impl TransportError {
    /// The text of [`TransportError::message`].
    pub open spec fn text(self) -> Seq<char> {
        match self {
            TransportError::EmptyUrl => "transport url is empty"@,
            TransportError::MissingScheme => "transport url has no scheme"@,
            TransportError::UnsupportedScheme(s) => "unsupported transport scheme: "@ + s@,
            TransportError::MissingTarget(what) => "transport url is missing its "@ + what@,
            TransportError::InvalidPort(port) => "invalid transport port: "@ + port@,
            TransportError::InvalidQuery(part) => "invalid transport query: "@ + part@,
        }
    }

    /// What went wrong, in words.
    pub fn message(&self) -> (out: String)
        ensures
            out@ == self.text(),
    {
        match self {
            TransportError::EmptyUrl => "transport url is empty".to_owned(),
            TransportError::MissingScheme => "transport url has no scheme".to_owned(),
            TransportError::UnsupportedScheme(s) => joined(
                "unsupported transport scheme: ",
                s.as_str(),
            ),
            TransportError::MissingTarget(what) => joined("transport url is missing its ", *what),
            TransportError::InvalidPort(port) => joined("invalid transport port: ", port.as_str()),
            TransportError::InvalidQuery(part) => joined(
                "invalid transport query: ",
                part.as_str(),
            ),
        }
    }
}

impl From<ChannelError> for DslineError {
    fn from(value: ChannelError) -> (out: Self) {
        DslineError::Channel(value)
    }
}

impl FromSpecImpl<ChannelError> for DslineError {
    open spec fn obeys_from_spec() -> bool {
        true
    }

    open spec fn from_spec(value: ChannelError) -> DslineError {
        DslineError::Channel(value)
    }
}

impl From<ProtocolError> for DslineError {
    fn from(value: ProtocolError) -> (out: Self) {
        DslineError::Protocol(value)
    }
}

impl FromSpecImpl<ProtocolError> for DslineError {
    open spec fn obeys_from_spec() -> bool {
        true
    }

    open spec fn from_spec(value: ProtocolError) -> DslineError {
        DslineError::Protocol(value)
    }
}

impl From<TransportError> for DslineError {
    fn from(value: TransportError) -> (out: Self) {
        DslineError::Transport(value)
    }
}

impl FromSpecImpl<TransportError> for DslineError {
    open spec fn obeys_from_spec() -> bool {
        true
    }

    open spec fn from_spec(value: TransportError) -> DslineError {
        DslineError::Transport(value)
    }
}

/// The texts of errors of a channel, with the numbers they tell in decimal digits.
pub proof fn law_channel_errors_in_words(
    len: usize,
    slot_size: usize,
    expected: u64,
    actual: u64,
    what: &'static str,
)
    ensures
        ChannelError::Closed.text() == "channel is closed"@,
        ChannelError::BufferFull.text() == "channel buffer is full"@,
        ChannelError::BufferEmpty.text() == "channel buffer is empty"@,
        ChannelError::CorruptedMessage.text() == "message checksum validation failed"@,
        (ChannelError::MessageTooLarge { len, slot_size }).text() == "message length "@ + decimal(
            len as nat,
        ) + " exceeds slot size "@ + decimal(slot_size as nat),
        (ChannelError::SequenceMismatch { expected, actual }).text()
            == "expected message sequence "@ + decimal(expected as nat) + ", found "@ + decimal(
            actual as nat,
        ),
        ChannelError::InvalidConfig(what).text() == "invalid channel config: "@ + what@,
        ChannelError::StorageIo(what).text() == "storage I/O error: "@ + what@,
{
    assert((ChannelError::MessageTooLarge { len, slot_size }).text() =~= "message length "@
        + decimal(len as nat) + " exceeds slot size "@ + decimal(slot_size as nat));
    assert((ChannelError::SequenceMismatch { expected, actual }).text()
        =~= "expected message sequence "@ + decimal(expected as nat) + ", found "@ + decimal(
        actual as nat,
    ));
}

/// The texts of errors of a frame, with the numbers they tell in decimal digits, and the magic
/// number in eight hexadecimal ones.
pub proof fn law_protocol_errors_in_words(a: usize, b: usize, declared: u64, magic: u32, code: u16)
    ensures
        (ProtocolError::FrameTooShort { len: a, minimum: b }).text() == "frame length "@ + decimal(
            a as nat,
        ) + " is shorter than minimum "@ + decimal(b as nat),
        ProtocolError::InvalidMagic(magic).text() == "invalid frame magic 0x"@ + hex(
            magic as nat,
            8,
        ),
        ProtocolError::UnsupportedVersion(code).text() == "unsupported frame protocol version "@
            + decimal(code as nat),
        ProtocolError::InvalidFrameKind(code).text() == "invalid frame kind "@ + decimal(
            code as nat,
        ),
        (ProtocolError::InvalidHeaderLength { header_len: a, minimum: b }).text()
            == "invalid frame header length "@ + decimal(a as nat) + "; minimum is "@ + decimal(
            b as nat,
        ),
        (ProtocolError::InvalidPayloadLength { declared, available: a }).text()
            == "invalid frame payload length "@ + decimal(declared as nat) + "; only "@ + decimal(
            a as nat,
        ) + " bytes available"@,
        (ProtocolError::InvalidMetadataLength { offset: a, declared: b }).text()
            == "invalid metadata length "@ + decimal(b as nat) + " at frame header offset "@
            + decimal(a as nat),
        ProtocolError::HeaderLengthOverflow.text() == "frame header length overflow"@,
{
    assert((ProtocolError::FrameTooShort { len: a, minimum: b }).text() =~= "frame length "@
        + decimal(a as nat) + " is shorter than minimum "@ + decimal(b as nat));
    assert((ProtocolError::InvalidHeaderLength { header_len: a, minimum: b }).text()
        =~= "invalid frame header length "@ + decimal(a as nat) + "; minimum is "@ + decimal(
        b as nat,
    ));
    assert((ProtocolError::InvalidPayloadLength { declared, available: a }).text()
        =~= "invalid frame payload length "@ + decimal(declared as nat) + "; only "@ + decimal(
        a as nat,
    ) + " bytes available"@);
    assert((ProtocolError::InvalidMetadataLength { offset: a, declared: b }).text()
        =~= "invalid metadata length "@ + decimal(b as nat) + " at frame header offset "@
        + decimal(a as nat));
}

} // verus!
