//! The frame an encoded message travels in: a 4-byte big-endian length,
//! then that many bytes of payload.

use vstd::prelude::*;
use vstd::slice::slice_subrange;

verus! {

/// The name of the stream protocol the RPCs run on.
pub const PROTOCOL_NAME: &'static str = "/libp2p-raft/1.0.0";

/// The largest payload a frame may announce.
pub const MAX_FRAME_BYTES: u32 = 4194304;

/// Why bytes could not be read as a frame.
#[derive(Debug, Clone, Copy, PartialEq, Eq, Structural)]
pub enum FrameError {
    /// Fewer than 4 bytes: the length header is incomplete.
    ShortHeader,
    /// The header announces more payload than the bytes hold.
    Truncated,
    /// The header announces more than [`MAX_FRAME_BYTES`].
    TooLarge(u32),
}

/// The big-endian bytes of `n`.
pub open spec fn be_bytes(n: u32) -> Seq<u8> {
    seq![(n / 16777216) as u8, (n / 65536 % 256) as u8, (n / 256 % 256) as u8, (n % 256) as u8]
}

/// The number that four big-endian bytes stand for.
pub open spec fn be_value(b: Seq<u8>) -> nat {
    (b[0] * 16777216 + b[1] * 65536 + b[2] * 256 + b[3]) as nat
}

/// The length a frame announces for a payload: its length, cut to 32 bits.
pub open spec fn announced_len(len: nat) -> u32 {
    (len % 4294967296) as u32
}

/// The frame around `payload`.
pub open spec fn framed(payload: Seq<u8>) -> Seq<u8> {
    be_bytes(announced_len(payload.len())) + payload
}

/// Reading back the bytes of a number gives the number.
pub proof fn lemma_be_roundtrip(n: u32)
    ensures
        be_value(be_bytes(n)) == n,
        be_bytes(n).len() == 4,
{
}

/// Wraps `payload` in a frame.
pub fn frame_payload(payload: &[u8]) -> (out: Vec<u8>)
    ensures
        out@ == framed(payload@),
{
    let len: u32 = (payload.len() as u64 % 4294967296) as u32;
    let mut out: Vec<u8> = Vec::with_capacity(4);
    out.push((len / 16777216) as u8);
    out.push((len / 65536 % 256) as u8);
    out.push((len / 256 % 256) as u8);
    out.push((len % 256) as u8);
    let ghost header = out@;
    assert(header =~= be_bytes(announced_len(payload@.len())));
    out.extend_from_slice(payload);
    assert(out@ =~= framed(payload@));
    out
}

/// The payload length a frame's header announces.
pub fn frame_length(bytes: &[u8]) -> (r: Result<u32, FrameError>)
    ensures
        bytes@.len() < 4 ==> r == Err::<u32, FrameError>(FrameError::ShortHeader),
        bytes@.len() >= 4 ==> (r matches Ok(n) && n == be_value(bytes@)),
{
    if bytes.len() < 4 {
        return Err(FrameError::ShortHeader);
    }
    let n: u32 = bytes[0] as u32 * 16777216 + bytes[1] as u32 * 65536 + bytes[2] as u32 * 256
        + bytes[3] as u32;
    Ok(n)
}

/// The payload a frame announces, checked against [`MAX_FRAME_BYTES`].
pub fn check_frame_length(len: u32) -> (r: Result<(), FrameError>)
    ensures
        r == (if len > MAX_FRAME_BYTES {
            Err::<(), FrameError>(FrameError::TooLarge(len))
        } else {
            Ok(())
        }),
{
    if len > MAX_FRAME_BYTES {
        Err(FrameError::TooLarge(len))
    } else {
        Ok(())
    }
}

/// Whether an encoded frame of `frame_len` bytes is too large to send.
pub fn frame_too_large(frame_len: usize) -> (b: bool)
    ensures
        b == (frame_len > MAX_FRAME_BYTES + 4),
{
    frame_len as u64 > MAX_FRAME_BYTES as u64 + 4
}

/// The payload of the frame at the start of `bytes`; bytes after it are ignored.
pub fn split_frame(bytes: &[u8]) -> (r: Result<&[u8], FrameError>)
    ensures
        bytes@.len() < 4 ==> r matches Err(FrameError::ShortHeader),
        bytes@.len() >= 4 && bytes@.len() < 4 + be_value(bytes@) ==> r matches Err(
            FrameError::Truncated,
        ),
        bytes@.len() >= 4 + be_value(bytes@) ==> (r matches Ok(p) && p@ == bytes@.subrange(
            4,
            4 + be_value(bytes@) as int,
        )),
{
    let len = match frame_length(bytes) {
        Ok(n) => n,
        Err(e) => return Err(e),
    };
    let end: u64 = 4 + len as u64;
    if (bytes.len() as u64) < end {
        return Err(FrameError::Truncated);
    }
    Ok(slice_subrange(bytes, 4, end as usize))
}

/// Splitting a frame gives back the payload it was made from, as long as
/// the payload's length fits the 32-bit header.
pub proof fn lemma_frame_roundtrip(payload: Seq<u8>)
    requires
        payload.len() < 4294967296,
    ensures
        framed(payload).len() >= 4,
        be_value(framed(payload)) == payload.len(),
        framed(payload).subrange(4, 4 + payload.len() as int) == payload,
{
    let n = announced_len(payload.len());
    lemma_be_roundtrip(n);
    let f = framed(payload);
    assert(f.subrange(0, 4) =~= be_bytes(n));
    assert(be_value(f) == be_value(be_bytes(n)));
    assert(f.subrange(4, 4 + payload.len() as int) =~= payload);
}

} // verus!
