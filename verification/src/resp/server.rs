//! What a RESP2 server does after each attempt to take a frame from its
//! buffer: answer `+OK` to a frame, wait for more bytes, or answer a
//! protocol error and close the connection.
use vstd::prelude::*;
use vstd::string::*;
use crate::resp::encoder::encode;
use crate::resp::error::{Error, error_message, lemma_message_plain};
use crate::resp::frame::{Frame, FrameV, encode_frame};

verus! {

/// The server's next step.
#[derive(Debug, PartialEq)]
pub enum Reply {
    /// Send these bytes and keep reading.
    Answer(Vec<u8>),
    /// Send these bytes, then close the connection.
    AnswerAndClose(Vec<u8>),
    /// Nothing complete yet: read more bytes.
    NeedMore,
}

/// The step for what the decoder gave back: every complete frame is
/// answered with the simple string `OK`; an incomplete buffer means reading
/// on; a protocol error is answered with an error frame that carries the
/// error's message after `ERR protocol error: `, and ends the connection.
pub fn reply_to(outcome: &Result<Option<Frame>, Error>) -> (r: Reply)
    ensures
        match outcome {
            Ok(Some(_)) => r matches Reply::Answer(b) && b@ == encode_frame(FrameV::Simple("OK"@)),
            Ok(None) => r is NeedMore,
            Err(e) => r matches Reply::AnswerAndClose(b) && b@ == encode_frame(
                FrameV::Error("ERR protocol error: "@ + error_message(*e)),
            ),
        },
{
    match outcome {
        Ok(Some(_)) => {
            proof {
                reveal_strlit("OK");
            }
            Reply::Answer(encode(&Frame::SimpleString(String::from_str("OK"))))
        },
        Ok(None) => Reply::NeedMore,
        Err(e) => {
            let mut m = String::from_str("ERR protocol error: ");
            let text = e.to_string();
            m.append(text.as_str());
            proof {
                reveal_strlit("ERR protocol error: ");
                lemma_message_plain(*e);
                let p = "ERR protocol error: "@;
                assert forall|i: int| 0 <= i < m@.len() implies #[trigger] m@[i] != '\r' && m@[i]
                    != '\n' by {
                    if i >= p.len() {
                        assert(m@[i] == error_message(*e)[i - p.len()]);
                    }
                }
            }
            Reply::AnswerAndClose(encode(&Frame::Error(m)))
        },
    }
}

} // verus!
