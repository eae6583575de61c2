//! Frames, and the mapping between messages and frames.
//!
//! Selection of the wire format is a pure function of the session's
//! negotiated codec tag; a received data frame identifies its own format
//! by its opcode. Together, [`encode`]'s and [`decode`]'s contracts state
//! the round trip for the binary format: decoding the encoding of any
//! message yields exactly that message back.

use vstd::prelude::*;
use crate::codec_bin;
use crate::codec_text;
use crate::messages::{Message, MessageV};
use crate::{Format, WampError, WampResult};

verus! {

/// One discrete unit of transport data.
#[derive(Debug, Clone, PartialEq, Eq)]
pub enum Frame {
    Text(Vec<char>),
    Binary(Vec<u8>),
    Ping(Vec<u8>),
    Pong(Vec<u8>),
    Close,
}

/// The mathematical shape of a [`Frame`].
pub enum FrameV {
    Text(Seq<char>),
    Binary(Seq<u8>),
    Ping(Seq<u8>),
    Pong(Seq<u8>),
    Close,
}

impl DeepView for Frame {
    type V = FrameV;

    open spec fn deep_view(&self) -> FrameV {
        match self {
            Frame::Text(t) => FrameV::Text(t.deep_view()),
            Frame::Binary(b) => FrameV::Binary(b@),
            Frame::Ping(p) => FrameV::Ping(p@),
            Frame::Pong(p) => FrameV::Pong(p@),
            Frame::Close => FrameV::Close,
        }
    }
}

/// What frame the encoder produces for a message in each format.
pub open spec fn spec_encode(m: MessageV, f: Format) -> FrameV {
    match f {
        Format::Text => FrameV::Text(codec_text::enc_msg_t(m)),
        Format::Binary => FrameV::Binary(codec_bin::enc_msg(m)),
    }
}

/// Encode a message as one data frame of the chosen format.
pub fn encode(m: &Message, f: Format) -> (r: Frame)
    ensures
        r.deep_view() == spec_encode(m.deep_view(), f),
{
    match f {
        Format::Text => {
            let cs = codec_text::encode_text(m);
            proof {
                assert(cs.deep_view() =~= cs@);
            }
            Frame::Text(cs)
        },
        Format::Binary => Frame::Binary(codec_bin::encode_bin(m)),
    }
}

/// Decode one data frame, selecting the format by the frame's own opcode.
///
/// The contract states the round trip for both formats: on the encoding
/// of any message `m`, decoding returns `Ok` of a message whose shape is
/// exactly `m`'s. A frame that does not hold one well-formed message
/// yields the decode error of its own format, and a control frame yields
/// an unexpected-message error.
pub fn decode(frame: &Frame) -> (r: WampResult<Message>)
    ensures
        forall|m: MessageV, f: Format| #[trigger]
            spec_encode(m, f) == frame.deep_view() ==> (r matches Ok(msg) && msg.deep_view()
                == m),
        frame is Ping || frame is Pong || frame is Close ==> r == Err::<Message, WampError>(
            WampError::UnexpectedMessage,
        ),
        frame is Text ==> (r matches Ok(msg) || r == Err::<Message, WampError>(
            WampError::TextDecode,
        )),
        frame is Binary ==> (r matches Ok(msg) || r == Err::<Message, WampError>(
            WampError::BinaryDecode,
        )),
{
    match frame {
        Frame::Text(cs) => {
            proof {
                assert(cs.deep_view() =~= cs@);
            }
            match codec_text::decode_text(cs) {
                Some(m) => Ok(m),
                None => Err(WampError::TextDecode),
            }
        },
        Frame::Binary(b) => {
            match codec_bin::decode_bin(b) {
                Some(m) => Ok(m),
                None => Err(WampError::BinaryDecode),
            }
        },
        _ => Err(WampError::UnexpectedMessage),
    }
}

} // verus!
