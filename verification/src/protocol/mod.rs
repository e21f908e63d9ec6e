//! Wire protocol: the RPC messages and the length-prefixed frame they travel in.

pub mod codec;
pub mod messages;

pub use codec::{
    check_frame_length, frame_length, frame_payload, frame_too_large, split_frame, FrameError,
    MAX_FRAME_BYTES, PROTOCOL_NAME,
};
pub use messages::{RaftMessage, WireEnvelope};
