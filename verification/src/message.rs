//! The routed message value and its ghost form.

use vstd::prelude::*;

verus! {

/// One routed message: a topic key and an opaque payload.
///
/// Both fields carry canonical structured text. The router never interprets
/// the payload; the key only ever takes part in equality tests, so two keys
/// with the same canonical text name the same topic.
#[derive(Debug, PartialEq, Eq)]
pub struct Message {
    pub key: String,
    pub payload: String,
}

/// Ghost form of a [`Message`]: the views of its two fields.
#[verifier::ext_equal]
pub struct MsgV {
    pub key: Seq<char>,
    pub payload: Seq<char>,
}

impl View for Message {
    type V = MsgV;

    open spec fn view(&self) -> MsgV {
        MsgV { key: self.key@, payload: self.payload@ }
    }
}

impl Clone for Message {
    /// Clones preserve both fields.
    fn clone(&self) -> (r: Self)
        ensures
            r == *self,
    {
        Message { key: self.key.clone(), payload: self.payload.clone() }
    }
}

impl Message {
    pub fn new(key: String, payload: String) -> (r: Self)
        ensures
            r@ == (MsgV { key: key@, payload: payload@ }),
    {
        Message { key, payload }
    }
}

/// The ghost forms of a sequence of messages.
pub open spec fn msgs_view(s: Seq<Message>) -> Seq<MsgV> {
    s.map_values(|m: Message| m@)
}

} // verus!
