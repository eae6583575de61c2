//! A verified client core for a WAMP-style publish/subscribe protocol.
//!
//! The library holds the protocol logic: the message model, the two wire
//! codecs, the subprotocol negotiation and handshake decisions, the
//! dispatch of inbound messages, and the caller-facing session operations.
//! Transport input and output stays outside: callers hand frames in and
//! write the frames handed back.

pub mod values;
pub mod codec_bin;
pub mod codec_text;
pub mod codec;
pub mod messages;
pub mod client;

use vstd::prelude::*;

verus! {

/// The two wire formats a session can negotiate.
#[derive(Clone, Copy, PartialEq, Eq, Structural, Debug)]
pub enum Format {
    Text,
    Binary,
}

/// Everything that can go wrong between this client and its router.
#[derive(Clone, Copy, PartialEq, Eq, Structural, Debug)]
pub enum WampError {
    /// The endpoint address could not be used.
    Address,
    /// The transport failed to connect, read or write.
    Transport,
    /// A text frame did not hold one well-formed message.
    TextDecode,
    /// A binary frame did not hold one well-formed message.
    BinaryDecode,
    /// A text frame was not valid character data.
    MalformedData,
    /// The peer closed or aborted before or during an expected exchange.
    ConnectionLost,
    /// A message arrived out of the expected protocol sequence.
    UnexpectedMessage,
}

pub type WampResult<T> = Result<T, WampError>;

} // verus!
