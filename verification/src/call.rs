//! Calls of the service over HTTP.

use vstd::prelude::*;

use crate::json::{optional_tree, Json, Tree};
use crate::provider::Method;

verus! {

/// A call of the service: what is sent.
#[derive(Debug)]
pub struct HttpCall {
    pub method: Method,
    pub url: String,
    pub headers: Vec<(String, String)>,
    pub body: Option<Json>,
}

/// What a call sends.
pub struct Call {
    pub method: Method,
    pub url: Seq<char>,
    pub headers: Seq<(Seq<char>, Seq<char>)>,
    pub body: Option<Tree>,
}

/// The texts of pairs of strings.
pub open spec fn pairs(headers: Seq<(String, String)>) -> Seq<(Seq<char>, Seq<char>)> {
    headers.map_values(|h: (String, String)| (h.0@, h.1@))
}

impl View for HttpCall {
    type V = Call;

    open spec fn view(&self) -> Call {
        Call {
            method: self.method,
            url: self.url@,
            headers: pairs(self.headers@),
            body: optional_tree(self.body),
        }
    }
}

/// A key as a bearer token.
pub open spec fn bearer(key: Seq<char>) -> Seq<char> {
    "Bearer "@ + key
}

/// The header for the content type of JSON.
pub open spec fn content_type() -> (Seq<char>, Seq<char>) {
    ("Content-Type"@, "application/json"@)
}

/// The header for a key.
pub open spec fn authorization(key: Seq<char>) -> (Seq<char>, Seq<char>) {
    ("Authorization"@, bearer(key))
}

pub(crate) fn header(name: &str, value: &str) -> (r: (String, String))
    ensures
        (r.0@, r.1@) == (name@, value@),
{
    (name.to_owned(), value.to_owned())
}

pub(crate) fn make_content_type() -> (r: (String, String))
    ensures
        (r.0@, r.1@) == content_type(),
{
    header("Content-Type", "application/json")
}

pub(crate) fn make_authorization(key: &str) -> (r: (String, String))
    ensures
        (r.0@, r.1@) == authorization(key@),
{
    header("Authorization", "Bearer ".to_owned().concat(key).as_str())
}

/// A text value at a key.
pub open spec fn text_at(t: Tree, key: Seq<char>) -> Option<Seq<char>> {
    match t.get(key) {
        Some(v) => v.as_text(),
        None => None,
    }
}

pub(crate) fn get_text(value: &Json, key: &str) -> (r: Option<String>)
    ensures
        crate::text::optional(r) == text_at(value@, key@),
{
    match value.get(key) {
        Some(v) => match v.as_text() {
            Some(s) => Some(s.clone()),
            None => None,
        },
        None => None,
    }
}

/// What a refused call says, given its body and what reading the body gave: the
/// text under the first or else the second key, or the whole body.
pub open spec fn refusal(
    status: Seq<char>,
    body: Seq<char>,
    read: Option<Tree>,
    first: Seq<char>,
    second: Seq<char>,
) -> Seq<char> {
    let detail = match read {
        Some(t) => match text_at(t, first) {
            Some(s) => s,
            None => match text_at(t, second) {
                Some(s) => s,
                None => body,
            },
        },
        None => body,
    };
    "Server error ("@ + status + "): "@ + detail
}

/// What a refused call says, given what reading its body gave.
pub fn describe_refusal(
    status: &str,
    body: &str,
    read: &Option<Json>,
    first: &str,
    second: &str,
) -> (r: String)
    ensures
        r@ == refusal(status@, body@, optional_tree(*read), first@, second@),
{
    let mut detail = body.to_owned();
    if let Some(value) = read {
        match get_text(value, first) {
            Some(s) => {
                detail = s;
            },
            None => match get_text(value, second) {
                Some(s) => {
                    detail = s;
                },
                None => {},
            },
        }
    }
    "Server error (".to_owned().concat(status).concat("): ").concat(detail.as_str())
}

/// What a text reads as, if it is JSON.
pub open spec fn readable(text: Seq<char>) -> Option<Tree> {
    match crate::json::parsed_json(text) {
        Ok(t) => Some(t),
        Err(_) => None,
    }
}

pub(crate) fn read_json(text: &str) -> (r: Option<Json>)
    ensures
        optional_tree(r) == readable(text@),
        r matches Some(v) ==> v@.wf(),
{
    match Json::parse(text) {
        Ok(v) => Some(v),
        Err(_) => None,
    }
}

/// What a refused call says: the text under `error` or else `message` in its
/// body, or the whole body.
pub fn server_error(status: &str, body: &str) -> (r: String)
    ensures
        r@ == refusal(status@, body@, readable(body@), "error"@, "message"@),
{
    let read = read_json(body);
    describe_refusal(status, body, &read, "error", "message")
}

/// What a refused activity call says: as for other calls, but `message` before
/// `error`.
pub fn activity_error(status: &str, body: &str) -> (r: String)
    ensures
        r@ == refusal(status@, body@, readable(body@), "message"@, "error"@),
{
    let read = read_json(body);
    describe_refusal(status, body, &read, "message", "error")
}

} // verus!
