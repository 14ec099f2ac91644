//! What the parts that talk to language models share: their errors and the
//! events of a stream.

use vstd::prelude::*;

use crate::text::{decimal, decimal_text};

verus! {

/// One event of a stream. A stream sends any number of chunks and ends in
/// exactly one `Done` or `Error`.
#[derive(Debug, PartialEq)]
pub enum StreamEvent {
    Chunk { delta: String },
    Done { full_response: String, request_id: String },
    Error { message: String, request_id: String },
}

/// What an event says.
pub enum Event {
    Chunk(Seq<char>),
    Done(Seq<char>, Seq<char>),
    Error(Seq<char>, Seq<char>),
}

impl View for StreamEvent {
    type V = Event;

    open spec fn view(&self) -> Event {
        match self {
            StreamEvent::Chunk { delta } => Event::Chunk(delta@),
            StreamEvent::Done { full_response, request_id } => Event::Done(
                full_response@,
                request_id@,
            ),
            StreamEvent::Error { message, request_id } => Event::Error(message@, request_id@),
        }
    }
}

/// Why a request to a language model failed.
#[derive(Debug, PartialEq)]
pub enum LlmError {
    Reqwest(String),
    Keychain(String),
    MissingVariable(String),
    InvalidCurl(&'static str),
    PluelyUnlicensed,
    PluelyConfig(String),
    ProviderApi { status: u16, body: String },
    CurlParse(String),
    Json(String),
    Channel(String),
    TextAttachment(String, String),
    Cancelled,
}

/// What an error says.
pub enum Failure {
    Reqwest(Seq<char>),
    Keychain(Seq<char>),
    MissingVariable(Seq<char>),
    InvalidCurl(Seq<char>),
    PluelyUnlicensed,
    PluelyConfig(Seq<char>),
    ProviderApi(u16, Seq<char>),
    CurlParse(Seq<char>),
    Json(Seq<char>),
    Channel(Seq<char>),
    TextAttachment(Seq<char>, Seq<char>),
    Cancelled,
}

impl View for LlmError {
    type V = Failure;

    open spec fn view(&self) -> Failure {
        match self {
            LlmError::Reqwest(s) => Failure::Reqwest(s@),
            LlmError::Keychain(s) => Failure::Keychain(s@),
            LlmError::MissingVariable(s) => Failure::MissingVariable(s@),
            LlmError::InvalidCurl(s) => Failure::InvalidCurl(s@),
            LlmError::PluelyUnlicensed => Failure::PluelyUnlicensed,
            LlmError::PluelyConfig(s) => Failure::PluelyConfig(s@),
            LlmError::ProviderApi { status, body } => Failure::ProviderApi(*status, body@),
            LlmError::CurlParse(s) => Failure::CurlParse(s@),
            LlmError::Json(s) => Failure::Json(s@),
            LlmError::Channel(s) => Failure::Channel(s@),
            LlmError::TextAttachment(name, reason) => Failure::TextAttachment(name@, reason@),
            LlmError::Cancelled => Failure::Cancelled,
        }
    }
}

impl Failure {
    /// The message shown for a failure.
    pub open spec fn message(self) -> Seq<char> {
        match self {
            Failure::Reqwest(s) => s,
            Failure::Keychain(s) => "keychain: "@ + s,
            Failure::MissingVariable(s) => "missing variable: "@ + s,
            Failure::InvalidCurl(s) => "invalid curl: "@ + s,
            Failure::PluelyUnlicensed => "pluely unlicensed"@,
            Failure::PluelyConfig(s) => "pluely config: "@ + s,
            Failure::ProviderApi(status, body) => "provider api "@ + decimal(status as nat) + ": "@
                + body,
            Failure::CurlParse(s) => "curl parse: "@ + s,
            Failure::Json(s) => s,
            Failure::Channel(s) => "channel: "@ + s,
            Failure::TextAttachment(name, reason) => "text attachment "@ + name + ": "@ + reason,
            Failure::Cancelled => "cancelled"@,
        }
    }
}

impl LlmError {
    /// The message shown for the error.
    pub fn to_string(&self) -> (r: String)
        ensures
            r@ == self@.message(),
    {
        match self {
            LlmError::Reqwest(s) => s.clone(),
            LlmError::Keychain(s) => "keychain: ".to_owned().concat(s.as_str()),
            LlmError::MissingVariable(s) => "missing variable: ".to_owned().concat(s.as_str()),
            LlmError::InvalidCurl(s) => "invalid curl: ".to_owned().concat(s),
            LlmError::PluelyUnlicensed => "pluely unlicensed".to_owned(),
            LlmError::PluelyConfig(s) => "pluely config: ".to_owned().concat(s.as_str()),
            LlmError::ProviderApi { status, body } => "provider api ".to_owned().concat(
                decimal_text(*status).as_str(),
            ).concat(": ").concat(body.as_str()),
            LlmError::CurlParse(s) => "curl parse: ".to_owned().concat(s.as_str()),
            LlmError::Json(s) => s.clone(),
            LlmError::Channel(s) => "channel: ".to_owned().concat(s.as_str()),
            LlmError::TextAttachment(name, reason) => "text attachment ".to_owned().concat(
                name.as_str(),
            ).concat(": ").concat(reason.as_str()),
            LlmError::Cancelled => "cancelled".to_owned(),
        }
    }
}

} // verus!
