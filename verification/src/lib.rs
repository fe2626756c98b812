//! SETTINGS frames of a binary, length-prefixed, connection-multiplexed
//! protocol: decoding a raw frame payload into a validated, typed collection
//! of settings, encoding that collection back to wire bytes, and the
//! per-setting range rules.

use vstd::prelude::*;

pub mod buf;
pub mod frame;
pub mod settings;


verus! {

/// A 16-bit identifier as it stands on the wire: two bytes, big-endian.
pub open spec fn u16_be_bytes(v: u16) -> Seq<u8> {
    seq![(v >> 8) as u8, (v & 0xff) as u8]
}

/// A 32-bit value as it stands on the wire: four bytes, big-endian.
pub open spec fn u32_be_bytes(v: u32) -> Seq<u8> {
    seq![
        ((v >> 24) & 0xff) as u8,
        ((v >> 16) & 0xff) as u8,
        ((v >> 8) & 0xff) as u8,
        (v & 0xff) as u8,
    ]
}

} // verus!
