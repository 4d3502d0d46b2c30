//! A verified client library for a remote-procedure-call bus that talks to
//! software-defined devices over a single character-device connection.
//!
//! Every message travels as one NUL-delimited frame holding a JSON-encoded
//! call or response.  The frame codec, the message codec, the bus logic
//! (request building, response decoding, device lookup) and the device
//! facades' pure parts are verified here; the process that owns the open
//! device file drives them with plain byte reads and writes.

use vstd::prelude::*;

pub mod frame;
pub mod raw_mode;
pub mod json;
pub mod rpc_device;
pub mod device_bus;
pub mod redstone_interface;
pub mod sound_card;
pub mod computer;
pub mod file_import_export_card;

verus! {

/// How a bus operation can fail, mirroring the error taxonomy of the
/// protocol: framing failures (`UnexpectedEof`, `CorruptData`), payloads
/// that do not decode into the expected shape (`InvalidData`), a lookup
/// that matched nothing (`NotFound`), an error the peer reported
/// (`Peer`), whose message is carried verbatim, and a request the peer
/// answered with an explicit refusal (`Denied`).
#[derive(Debug)]
pub enum BusError {
    UnexpectedEof,
    CorruptData,
    InvalidData,
    NotFound,
    Peer(String),
    Denied,
}

} // verus!
