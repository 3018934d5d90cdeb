//! Local dataflow primitives: framed byte messages, fixed-slot channels,
//! transport addresses, a small expression language and operator pipelines.

pub mod addresses;
pub mod binding;
pub mod bytes;
pub mod channel;
pub mod checksum;
pub mod chunk;
pub mod delivery;
pub mod error;
pub mod eval;
pub mod expr;
pub mod faults;
pub mod frame;
pub mod grammar;
pub mod notation;
pub mod persistent;
pub mod persistent_channel;
pub mod pipeline;
pub mod queue;
pub mod recovery;
pub mod region;
pub mod ring;
pub mod sharing;
pub mod slot;
pub mod spelling;
pub mod spsc;
pub mod storage;
pub mod text;
pub mod token;
pub mod traffic;
pub mod transport;
pub mod window;
pub mod wire;

pub use channel::ShmSpscChannel;
pub use checksum::checksum32;
pub use chunk::MessageSizeLimits;
pub use error::{ChannelError, DslineError, ProtocolError, TransportError};
pub use expr::{parse_expr, BinOp, Expr, ParseError, UnaryOp};
pub use frame::{
    decode_frame, encode_frame, Frame, FrameHeader, FrameKind, Metadata, CHUNK_METADATA_LEN,
    FRAME_FLAG_CHUNKED, FRAME_FLAG_CHUNK_END, FRAME_FLAG_CHUNK_START, FRAME_HEADER_LEN,
    FRAME_MAGIC, FRAME_VERSION, TLV_CHUNK_INDEX, TLV_CHUNK_MESSAGE_LEN, TLV_CHUNK_TOTAL,
    TLV_HEADER_LEN,
};
pub use persistent::{PersistentSlotRegion, PERSISTENT_SLOT_HEADER_LEN};
pub use persistent_channel::PersistentShmChannel;
pub use pipeline::{CollectSink, IterStream, Pipeline, Sink, Stream};
pub use region::FixedSlotRegion;
pub use ring::ReceivedMessage;
pub use slot::{SlotSnapshot, SlotState};
pub use spsc::{Backpressure, SendEvent, SendStep, SpscBytesRing, SpscConfig};
pub use storage::{FixedSlotStorage, MemorySlotStorage};
pub use transport::{Transport, TransportScheme, TransportUrl};
