//! A complete message as the application sees it, and the frame that
//! answers it.

use crate::message::{encode_frame, FrameError, Message as FrameMessage, MAX_PAYLOAD_LEN, OPCODE_BINARY, OPCODE_TEXT};
use vstd::prelude::*;
use vstd::string::*;
use vstd::utf8::encode_utf8;

verus! {

/// An application message: its payload and the opcode of its first frame.
pub struct Message {
    pub data: Vec<u8>,
    pub message_type: u8,
}

impl Message {
    pub fn new(data: Vec<u8>, message_type: u8) -> (r: Message)
        ensures
            r.data@ == data@,
            r.message_type == message_type,
    {
        Message { data, message_type }
    }

    pub fn message_type(&self) -> (r: u8)
        ensures
            r == self.message_type,
    {
        self.message_type
    }

    pub fn is_text(&self) -> (r: bool)
        ensures
            r == (self.message_type == OPCODE_TEXT),
    {
        self.message_type == OPCODE_TEXT
    }

    pub fn is_binary(&self) -> (r: bool)
        ensures
            r == (self.message_type == OPCODE_BINARY),
    {
        self.message_type == OPCODE_BINARY
    }

    /// The text frame that carries `message` back to the client.
    pub fn reply(&self, message: String) -> (r: Result<Vec<u8>, FrameError>)
        ensures
            match r {
                Ok(bytes) => encode_utf8(message@).len() <= MAX_PAYLOAD_LEN && bytes@
                    == encode_frame(OPCODE_TEXT, encode_utf8(message@)),
                Err(e) => encode_utf8(message@).len() > MAX_PAYLOAD_LEN && e
                    == FrameError::PayloadTooLarge,
            },
    {
        let payload = message.as_str().as_bytes_vec();
        let frame = FrameMessage { opcode: OPCODE_TEXT, is_final: true, was_masked: false, payload };
        frame.get_data()
    }
}

} // verus!
