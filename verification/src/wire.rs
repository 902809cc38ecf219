//! The wire form of control frames.
//!
//! Frames travel as structured text over the persistent bidirectional
//! connection, one frame per text message:
//!
//! ```text
//! {"Msg":        {"key": <structured>, "msg": <structured>}}
//! {"Subscribe":  {"key": <structured>}}
//! {"Unsubscribe":{"key": <structured>}}
//! ```
//!
//! The key and payload slots carry canonical structured text as-is, so
//! encoding a frame is exact concatenation. Decoding inbound text into a
//! [`Frame`] requires the structured-value parser and lives with the
//! transport layer.

use vstd::prelude::*;
use vstd::string::StringExecFns;

use crate::session::{Frame, FrameV};

verus! {

/// The exact wire text of one frame.
pub open spec fn spec_encode_frame(f: FrameV) -> Seq<char> {
    match f {
        FrameV::Msg { key, payload } => "{\"Msg\":{\"key\":"@ + key + ",\"msg\":"@ + payload
            + "}}"@,
        FrameV::Subscribe { key } => "{\"Subscribe\":{\"key\":"@ + key + "}}"@,
        FrameV::Unsubscribe { key } => "{\"Unsubscribe\":{\"key\":"@ + key + "}}"@,
    }
}

/// Encodes one frame as the text message that carries it.
pub fn encode_frame(f: &Frame) -> (r: String)
    ensures
        r@ == spec_encode_frame(f@),
{
    match f {
        Frame::Msg { key, payload } => {
            let mut r = String::from_str("{\"Msg\":{\"key\":");
            r.append(key.as_str());
            r.append(",\"msg\":");
            r.append(payload.as_str());
            r.append("}}");
            r
        },
        Frame::Subscribe { key } => {
            let mut r = String::from_str("{\"Subscribe\":{\"key\":");
            r.append(key.as_str());
            r.append("}}");
            r
        },
        Frame::Unsubscribe { key } => {
            let mut r = String::from_str("{\"Unsubscribe\":{\"key\":");
            r.append(key.as_str());
            r.append("}}");
            r
        },
    }
}

} // verus!
