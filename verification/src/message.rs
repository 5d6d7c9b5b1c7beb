//! A tagged message read from a map whose keys may come in any order:
//! which key fills which field, and which fields each kind of message
//! needs once the map has been read. A response's floating-point result is
//! carried as its bit pattern.
use vstd::prelude::*;
use vstd::string::*;
use crate::text::str_eq;

verus! {

/// The field a map key fills; any other key is read and dropped.
#[derive(Debug, Clone, Copy, PartialEq, Eq, Structural)]
pub enum Field {
    Type,
    Id,
    Method,
    Length,
    Result,
    Other,
}

/// The field for a key.
pub open spec fn field_spec(key: Seq<char>) -> Field {
    if key == "type"@ {
        Field::Type
    } else if key == "id"@ {
        Field::Id
    } else if key == "method"@ {
        Field::Method
    } else if key == "length"@ {
        Field::Length
    } else if key == "result"@ {
        Field::Result
    } else {
        Field::Other
    }
}

/// The field that `key` fills.
pub fn field_of(key: &str) -> (f: Field)
    ensures
        f == field_spec(key@),
{
    if str_eq(key, "type") {
        Field::Type
    } else if str_eq(key, "id") {
        Field::Id
    } else if str_eq(key, "method") {
        Field::Method
    } else if str_eq(key, "length") {
        Field::Length
    } else if str_eq(key, "result") {
        Field::Result
    } else {
        Field::Other
    }
}

/// The fields read from a map so far; a key seen twice keeps its last value.
pub struct Fields {
    pub tag: Option<String>,
    pub id: Option<String>,
    pub method: Option<String>,
    pub length: Option<u16>,
    pub result_bits: Option<u64>,
}

/// A message: a request, or a response whose result is held as the bits of
/// a 64-bit float.
#[derive(Debug, PartialEq)]
pub enum Message {
    Request { id: String, method: String, length: u16 },
    Response { id: String, result_bits: u64 },
}

/// Why the fields do not make a message.
#[derive(Debug, PartialEq)]
pub enum MessageError {
    /// A field that this kind of message needs is absent.
    MissingField(String),
    /// The tag names no kind of message; the known ones are `Request` and
    /// `Response`.
    UnknownVariant(String),
}

/// The model of a message.
pub enum MessageV {
    Request { id: Seq<char>, method: Seq<char>, length: u16 },
    Response { id: Seq<char>, result_bits: u64 },
}

/// The model of an error.
pub enum MessageErrorV {
    MissingField(Seq<char>),
    UnknownVariant(Seq<char>),
}

pub open spec fn opt_view(o: Option<String>) -> Option<Seq<char>> {
    match o {
        Some(s) => Some(s@),
        None => None,
    }
}

/// What the fields make: the tag decides the kind of message; a request
/// needs `id`, `method` and `length`, a response `id` and `result`, and the
/// first one missing, in that order, is the error; an unknown tag or none
/// at all is an error too.
pub open spec fn assemble_spec(
    tag: Option<Seq<char>>,
    id: Option<Seq<char>>,
    method: Option<Seq<char>>,
    length: Option<u16>,
    result_bits: Option<u64>,
) -> Result<MessageV, MessageErrorV> {
    match tag {
        None => Err(MessageErrorV::MissingField("type"@)),
        Some(t) => if t == "Request"@ {
            if id is None {
                Err(MessageErrorV::MissingField("id"@))
            } else if method is None {
                Err(MessageErrorV::MissingField("method"@))
            } else if length is None {
                Err(MessageErrorV::MissingField("length"@))
            } else {
                Ok(
                    MessageV::Request {
                        id: id->Some_0,
                        method: method->Some_0,
                        length: length->Some_0,
                    },
                )
            }
        } else if t == "Response"@ {
            if id is None {
                Err(MessageErrorV::MissingField("id"@))
            } else if result_bits is None {
                Err(MessageErrorV::MissingField("result"@))
            } else {
                Ok(MessageV::Response { id: id->Some_0, result_bits: result_bits->Some_0 })
            }
        } else {
            Err(MessageErrorV::UnknownVariant(t))
        },
    }
}

pub open spec fn assemble_result_view(r: Result<Message, MessageError>) -> Result<
    MessageV,
    MessageErrorV,
> {
    match r {
        Ok(Message::Request { id, method, length }) => Ok(
            MessageV::Request { id: id@, method: method@, length },
        ),
        Ok(Message::Response { id, result_bits }) => Ok(MessageV::Response { id: id@, result_bits }),
        Err(MessageError::MissingField(f)) => Err(MessageErrorV::MissingField(f@)),
        Err(MessageError::UnknownVariant(t)) => Err(MessageErrorV::UnknownVariant(t@)),
    }
}

fn missing(name: &str) -> (e: MessageError)
    ensures
        e matches MessageError::MissingField(f) && f@ == name@,
{
    MessageError::MissingField(String::from_str(name))
}

/// Builds the message that the fields describe, exactly as `assemble_spec`
/// says.
pub fn assemble(fields: Fields) -> (r: Result<Message, MessageError>)
    ensures
        assemble_result_view(r) == assemble_spec(
            opt_view(fields.tag),
            opt_view(fields.id),
            opt_view(fields.method),
            fields.length,
            fields.result_bits,
        ),
{
    let Fields { tag, id, method, length, result_bits } = fields;
    match tag {
        None => Err(missing("type")),
        Some(t) => {
            if str_eq(t.as_str(), "Request") {
                match (id, method, length) {
                    (None, _, _) => Err(missing("id")),
                    (Some(_), None, _) => Err(missing("method")),
                    (Some(_), Some(_), None) => Err(missing("length")),
                    (Some(id), Some(method), Some(length)) => Ok(
                        Message::Request { id, method, length },
                    ),
                }
            } else if str_eq(t.as_str(), "Response") {
                match (id, result_bits) {
                    (None, _) => Err(missing("id")),
                    (Some(_), None) => Err(missing("result")),
                    (Some(id), Some(result_bits)) => Ok(Message::Response { id, result_bits }),
                }
            } else {
                Err(MessageError::UnknownVariant(t))
            }
        },
    }
}

/// What each kind of message needs, and nothing more: a request holds
/// exactly the given id, method and length, whatever `result` holds; a
/// response holds exactly the given id and result, whatever `method` and
/// `length` hold; when a needed field is missing the error names a missing
/// one; an absent tag, or one that names neither kind, is an error too.
pub proof fn lemma_message_rules(
    tag: Option<Seq<char>>,
    id: Option<Seq<char>>,
    method: Option<Seq<char>>,
    length: Option<u16>,
    result_bits: Option<u64>,
)
    ensures
        tag == Some("Request"@) && id is Some && method is Some && length is Some ==> assemble_spec(
            tag,
            id,
            method,
            length,
            result_bits,
        ) == Ok::<MessageV, MessageErrorV>(
            MessageV::Request { id: id->Some_0, method: method->Some_0, length: length->Some_0 },
        ),
        tag == Some("Response"@) && id is Some && result_bits is Some ==> assemble_spec(
            tag,
            id,
            method,
            length,
            result_bits,
        ) == Ok::<MessageV, MessageErrorV>(
            MessageV::Response { id: id->Some_0, result_bits: result_bits->Some_0 },
        ),
        tag == Some("Request"@) && (id is None || method is None || length is None) ==> (
        assemble_spec(tag, id, method, length, result_bits) matches Err(
            MessageErrorV::MissingField(f),
        ) && ((f == "id"@ && id is None) || (f == "method"@ && method is None) || (f == "length"@
            && length is None))),
        tag == Some("Response"@) && (id is None || result_bits is None) ==> (assemble_spec(
            tag,
            id,
            method,
            length,
            result_bits,
        ) matches Err(MessageErrorV::MissingField(f)) && ((f == "id"@ && id is None) || (f
            == "result"@ && result_bits is None))),
        tag is None ==> assemble_spec(tag, id, method, length, result_bits) == Err::<
            MessageV,
            MessageErrorV,
        >(MessageErrorV::MissingField("type"@)),
        (tag matches Some(t) && t != "Request"@ && t != "Response"@) ==> assemble_spec(
            tag,
            id,
            method,
            length,
            result_bits,
        ) == Err::<MessageV, MessageErrorV>(MessageErrorV::UnknownVariant(tag->Some_0)),
{
    reveal_strlit("Request");
    reveal_strlit("Response");
    assert("Request"@.len() != "Response"@.len());
}

} // verus!
