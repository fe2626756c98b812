//! The generic frame header and the decode error kinds.
//!
//! A frame starts with nine header bytes: a 24-bit big-endian payload
//! length, a one-byte frame type tag, a one-byte flag set, and a 32-bit
//! big-endian stream identifier.

use vstd::prelude::*;
use crate::buf;
use crate::buf::buf_data;

verus! {

/// Why a frame was rejected by the decoder.
#[derive(Debug, Clone, Copy, PartialEq, Eq, Structural)]
pub enum Error {
    /// A connection-scoped frame carried a non-zero stream identifier.
    InvalidStreamId,
    /// An acknowledgment frame carried a non-empty payload.
    InvalidPayloadLength,
    /// A non-acknowledgment settings payload was not a multiple of six bytes.
    InvalidSettingsPayloadLength,
    /// A registered parameter's value fell outside its legal range.
    InvalidSettingValue,
}

/// The frame type tag of a SETTINGS frame.
pub const SETTINGS_KIND: u8 = 0x4;

/// The stream identifier of connection-scoped frames.
pub const CONNECTION_STREAM_ID: u32 = 0;

/// A decoded generic frame header: type tag, flag byte, stream identifier.
/// The payload length is handed around separately, already split off by the
/// framing layer.
#[derive(Debug, Clone, Copy, PartialEq, Eq, Structural)]
pub struct Head {
    pub kind: u8,
    pub flag: u8,
    pub stream_id: u32,
}

/// The nine header bytes of a frame, as they stand on the wire.
pub open spec fn head_bytes(kind: u8, flag: u8, stream_id: u32, payload_len: u32) -> Seq<u8> {
    seq![
        ((payload_len >> 16) & 0xff) as u8,
        ((payload_len >> 8) & 0xff) as u8,
        (payload_len & 0xff) as u8,
        kind,
        flag,
    ] + crate::u32_be_bytes(stream_id)
}

impl Head {
    pub fn new(kind: u8, flag: u8, stream_id: u32) -> (h: Head)
        ensures
            h == (Head { kind, flag, stream_id }),
    {
        Head { kind, flag, stream_id }
    }

    pub fn kind(&self) -> (k: u8)
        ensures
            k == self.kind,
    {
        self.kind
    }

    pub fn flag(&self) -> (f: u8)
        ensures
            f == self.flag,
    {
        self.flag
    }

    pub fn stream_id(&self) -> (id: u32)
        ensures
            id == self.stream_id,
    {
        self.stream_id
    }

    /// Appends the nine header bytes for a payload of `payload_len` bytes.
    /// The length field is 24 bits wide, so the length must fit in it.
    pub fn encode(&self, payload_len: u32, dst: &mut bytes::BytesMut)
        requires
            payload_len < 0x1000000,
        ensures
            buf_data(*final(dst)) == buf_data(*old(dst))
                + head_bytes(self.kind, self.flag, self.stream_id, payload_len),
    {
        buf::put_u8(dst, ((payload_len >> 16) & 0xff) as u8);
        buf::put_u8(dst, ((payload_len >> 8) & 0xff) as u8);
        buf::put_u8(dst, (payload_len & 0xff) as u8);
        buf::put_u8(dst, self.kind);
        buf::put_u8(dst, self.flag);
        buf::put_u32(dst, self.stream_id);
        assert(buf_data(*dst) =~= buf_data(*old(dst))
            + head_bytes(self.kind, self.flag, self.stream_id, payload_len));
    }
}

} // verus!
