//! Client for driving a flash-cart / emulator device over a message-oriented
//! channel: command framing, structured-reply parsing, and the multi-frame
//! binary transfer conventions for memory reads, file downloads and uploads.

use vstd::prelude::*;

pub mod hex;
pub mod transfer;
pub mod codec;
pub mod channel;
pub mod client;

verus! {

/// The error taxonomy of the client.
#[derive(Clone, Copy, Debug, PartialEq, Eq, Structural)]
pub enum Error {
    /// The channel could not be used or closed unexpectedly.
    Connection,
    /// A structured reply did not match the expected shape.
    MalformedReply,
    /// Fewer binary bytes arrived than the transfer expected.
    ShortRead,
    /// A size field of a reply could not be parsed.
    InvalidSize,
    /// A capability gate rejected the operation before anything was sent.
    Unsupported,
    /// Invalid arguments, detected before any frame is sent.
    CallerError,
}

/// One message on the channel: either a text frame carrying a structured
/// command or reply, or a binary frame carrying payload bytes.
#[derive(Debug, PartialEq, Eq)]
pub enum Frame {
    Text(Vec<u8>),
    Binary(Vec<u8>),
}

} // verus!
