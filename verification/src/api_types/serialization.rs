//! The frame around every payload on the wire: the length of the payload,
//! then the payload as one LZ4 block. Which block a payload is packed into
//! depends on the machine that packs it; what every machine reads out of the
//! block is the payload.

use lz4_flex::block::DecompressError;
use vstd::prelude::*;

verus! {

/// What `lz4_flex` reads out of a frame: the payload, or nothing where the
/// frame is damaged.
pub uninterp spec fn lz4_payload(frame: Seq<u8>) -> Option<Seq<u8>>;

/// Whether `frame` is a frame of `payload`: it starts with the length of the
/// payload in four little-endian bytes, and the payload is what is read out
/// of it.
pub open spec fn is_frame_of(frame: Seq<u8>, payload: Seq<u8>) -> bool {
    &&& frame.len() >= 4
    &&& frame.subrange(0, 4) == vstd::bytes::spec_u32_to_le_bytes(payload.len() as u32)
    &&& lz4_payload(frame) == Some(payload)
}

/// The longest frame that is read: a longer one is refused unread.
pub const MAX_FRAME_LEN: usize = 0x00ff_ffff;

/// Why a frame could not be read.
#[derive(Copy, Clone, Debug, PartialEq, Eq, Structural)]
pub enum DecodeError {
    /// The frame is longer than `MAX_FRAME_LEN`.
    FrameTooLong,
    /// The frame announces a shorter payload than it holds.
    OutputTooSmall { expected: usize, actual: usize },
    /// A literal reaches beyond the end of the frame.
    LiteralOutOfBounds,
    /// The frame ends where another byte is due.
    ExpectedAnotherByte,
    /// A match has the offset zero.
    OffsetZero,
    /// A match starts before the payload does.
    OffsetOutOfBounds,
    /// The frame is damaged in some other way.
    Damaged,
}

/// `lz4_flex::block::compress_prepend_size`: the length of `input` as a
/// little-endian `u32`, followed by a compressed block. Which block it is
/// depends on the machine; reading the result back gives `input` on any.
#[verifier::external_body]
fn compress_prepend_size(input: &[u8]) -> (frame: Vec<u8>)
    requires
        input@.len() <= u32::MAX,
    ensures
        frame@.len() >= 4,
        frame@.subrange(0, 4) == vstd::bytes::spec_u32_to_le_bytes(input@.len() as u32),
        lz4_payload(frame@) == Some(input@),
{
    lz4_flex::block::compress_prepend_size(input)
}

/// `lz4_flex::block::decompress_size_prepended`: the payload of a frame, which
/// is a function of the frame alone. A frame of fewer than four bytes has no
/// length to read and is refused for want of a byte.
#[verifier::external_body]
fn decompress_size_prepended(frame: &[u8]) -> (r: Result<Vec<u8>, DecodeError>)
    requires
        frame@.len() <= MAX_FRAME_LEN,
    ensures
        r.is_ok() == lz4_payload(frame@).is_some(),
        r.is_ok() ==> r.unwrap()@ == lz4_payload(frame@).unwrap(),
        frame@.len() < 4 ==> r.is_err() && r.unwrap_err() == DecodeError::ExpectedAnotherByte,
        r.is_err() ==> r.unwrap_err() != DecodeError::FrameTooLong,
{
    match lz4_flex::block::decompress_size_prepended(frame) {
        Ok(payload) => Ok(payload),
        Err(DecompressError::OutputTooSmall { expected, actual }) => Err(DecodeError::OutputTooSmall { expected, actual }),
        Err(DecompressError::LiteralOutOfBounds) => Err(DecodeError::LiteralOutOfBounds),
        Err(DecompressError::ExpectedAnotherByte) => Err(DecodeError::ExpectedAnotherByte),
        Err(DecompressError::OffsetZero) => Err(DecodeError::OffsetZero),
        Err(DecompressError::OffsetOutOfBounds) => Err(DecodeError::OffsetOutOfBounds),
        Err(_) => Err(DecodeError::Damaged),
    }
}

/// Frames an encoded value for the wire. What `deserialize` takes out of the
/// frame is the value again, unless the frame is too long to be read.
pub fn serialize(value: &[u8]) -> (frame: Vec<u8>)
    requires
        value@.len() <= u32::MAX,
    ensures
        is_frame_of(frame@, value@),
        frame@.len() <= MAX_FRAME_LEN ==> deserialized(frame@) == Some(value@),
{
    compress_prepend_size(value)
}

/// What `deserialize` returns for a frame, given what the frame unpacks to.
pub open spec fn deserialized(frame: Seq<u8>) -> Option<Seq<u8>> {
    if frame.len() > MAX_FRAME_LEN {
        None
    } else {
        lz4_payload(frame)
    }
}

/// Takes an encoded value out of its frame.
///
/// A frame beyond `MAX_FRAME_LEN` is refused unread; one of fewer than four
/// bytes is refused for want of a byte; any other is unpacked.
pub fn deserialize(value: &[u8]) -> (r: Result<Vec<u8>, DecodeError>)
    ensures
        r.is_ok() == deserialized(value@).is_some(),
        r.is_ok() ==> r.unwrap()@ == deserialized(value@).unwrap(),
        (r.is_err() && r.unwrap_err() == DecodeError::FrameTooLong) == (value@.len()
            > MAX_FRAME_LEN),
        value@.len() < 4 ==> r.is_err() && r.unwrap_err() == DecodeError::ExpectedAnotherByte,
{
    if value.len() > MAX_FRAME_LEN {
        return Err(DecodeError::FrameTooLong);
    }
    decompress_size_prepended(value)
}

} // verus!
