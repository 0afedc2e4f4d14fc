//! The boundary between raw frames and protocol messages.
use vstd::prelude::*;
use vstd::utf8::valid_utf8;
use nostr::message::{ClientMessage, RelayMessage};

verus! {

#[verifier::external_type_specification]
#[verifier::external_body]
pub struct ExClientMessage<'a>(ClientMessage<'a>);

#[verifier::external_type_specification]
#[verifier::external_body]
pub struct ExRelayMessage<'a>(RelayMessage<'a>);

/// Whether nostr reads `bytes` as a client message.
pub uninterp spec fn client_message_parses(bytes: Seq<u8>) -> bool;

/// The client message that nostr reads from `bytes`, when it reads one.
pub uninterp spec fn client_message_of(bytes: Seq<u8>) -> ClientMessage<'static>;

/// Relies on nostr's `ClientMessage::from_json`, a JSON deserialisation of
/// the bytes: whether it succeeds, and what it reads, depend on the bytes
/// alone.
#[verifier::external_body]
fn parse_client_message(bytes: &[u8]) -> (r: Result<ClientMessage<'static>, String>)
    ensures
        r is Ok <==> client_message_parses(bytes@),
        r matches Ok(m) ==> m == client_message_of(bytes@),
{
    match ClientMessage::from_json(bytes) {
        Ok(message) => Ok(message),
        Err(e) => Err(e.to_string()),
    }
}

/// Relies on `std::str::from_utf8`: it accepts exactly the valid UTF-8
/// byte sequences.
#[verifier::external_body]
fn is_utf8(bytes: &[u8]) -> (r: bool)
    ensures
        r == valid_utf8(bytes@),
{
    std::str::from_utf8(bytes).is_ok()
}

/// The protocol's JSON text of a relay message, as nostr writes it.
pub uninterp spec fn relay_json_of(message: RelayMessage<'static>) -> Seq<char>;

/// Relies on nostr's `RelayMessage::as_json`: the protocol's JSON form,
/// which depends on the message alone.
#[verifier::external_body]
fn relay_message_json(message: &RelayMessage<'static>) -> (r: String)
    ensures
        r@ == relay_json_of(*message),
{
    message.as_json()
}

/// Why a frame was rejected.
#[derive(Clone, Debug, PartialEq, Eq)]
pub enum ConvertError {
    /// The frame is text, but not a client message; the parser's words.
    Parse(String),
}

impl ConvertError {
    /// The error's text.
    pub fn to_string(&self) -> (r: String)
        ensures
            match self {
                ConvertError::Parse(e) => r@ == "Failed to parse client message: "@ + e@,
            },
    {
        match self {
            ConvertError::Parse(e) => String::from_str("Failed to parse client message: ").concat(e.as_str()),
        }
    }
}

/// What a non-empty frame becomes, given the parser's answer and whether
/// the frame is valid UTF-8: the message; nothing for a frame that is not
/// text; a parse error otherwise.
pub fn inbound_outcome<T>(parsed: Result<T, String>, utf8: bool) -> (r: Result<Option<T>, ConvertError>)
    ensures
        match parsed {
            Ok(m) => r == Ok::<Option<T>, ConvertError>(Some(m)),
            Err(e) => if utf8 {
                r == Err::<Option<T>, ConvertError>(ConvertError::Parse(e))
            } else {
                r == Ok::<Option<T>, ConvertError>(None)
            },
        },
{
    match parsed {
        Ok(m) => Ok(Some(m)),
        Err(e) => if utf8 {
            Err(ConvertError::Parse(e))
        } else {
            Ok(None)
        },
    }
}

/// Converts frames to client messages and relay messages to text.
#[derive(Clone, Copy, Debug)]
pub struct NostrMessageConverter;

impl NostrMessageConverter {
    /// Reads a frame: no message for an empty frame or one that is not
    /// UTF-8, the message when it parses, a parse error otherwise.
    pub fn inbound_from_bytes(&self, bytes: &[u8]) -> (r: Result<Option<ClientMessage<'static>>, ConvertError>)
        ensures
            bytes@.len() == 0 ==> r matches Ok(None),
            bytes@.len() > 0 && client_message_parses(bytes@) ==> r == Ok::<Option<ClientMessage<'static>>, ConvertError>(
                Some(client_message_of(bytes@)),
            ),
            bytes@.len() > 0 && !client_message_parses(bytes@) && !valid_utf8(bytes@) ==> r matches Ok(None),
            bytes@.len() > 0 && !client_message_parses(bytes@) && valid_utf8(bytes@) ==> r is Err,
    {
        if bytes.len() == 0 {
            return Ok(None);
        }
        let parsed = parse_client_message(bytes);
        let utf8 = match &parsed {
            Ok(_) => true,
            Err(_) => is_utf8(bytes),
        };
        inbound_outcome(parsed, utf8)
    }

    /// The protocol's JSON text of a relay message.
    pub fn outbound_to_string(&self, message: RelayMessage<'static>) -> (r: String)
        ensures
            r@ == relay_json_of(message),
    {
        relay_message_json(&message)
    }
}

} // verus!
