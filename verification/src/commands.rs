//! The commands of the front end: a chat request from its text attachments to
//! its closing event, and the stored secrets.

use vstd::prelude::*;
use vstd::utf8::{decode_utf8, valid_utf8};

use crate::api::result_texts;
use crate::bytes::{decode_base64, decoded_base64, decoded_view, utf8_text};
use crate::llm::{Event, Failure, LlmError, StreamEvent};
use crate::messages::{is_image, HistoryMessage};
use crate::schema::{files, AttachedFile, File};
use crate::secrets::{Secrets, Turn, Wanted};
use crate::stream::{
    body_lines, deltas, joined, lemma_only_chunks, only_chunks, outcome_of, run_events, sent,
    DeltaSource, StreamOutcome,
};
use crate::string_map::{in_order, texts, StringMap};
use crate::text::{same_text, starts_with, views};

verus! {

/// A request to chat with a provider.
#[derive(Debug)]
pub struct StreamChatRequest {
    pub provider: ProviderInput,
    pub message: String,
    pub system_prompt: Option<String>,
    pub history: Vec<HistoryMessage>,
    pub attached_files: Vec<AttachedFile>,
    pub request_id: String,
}

/// A provider as the front end describes it.
#[derive(Debug)]
pub struct ProviderInput {
    pub id: String,
    pub curl: String,
    pub response_content_path: String,
    pub streaming: bool,
    pub is_pluely_hosted: bool,
    pub user_variables: StringMap<String>,
}

/// The two ways that a chat can take.
#[derive(Debug, Clone, Copy, PartialEq, Eq, Structural)]
pub enum Route {
    /// Through the hosted service.
    Hosted,
    /// To the provider itself, by its template.
    Custom,
}

/// The way that a chat takes: through the hosted service if its provider is
/// hosted there.
pub fn route(request: &StreamChatRequest) -> (r: Route)
    ensures
        r == (if request.provider.is_pluely_hosted {
            Route::Hosted
        } else {
            Route::Custom
        }),
{
    if request.provider.is_pluely_hosted {
        Route::Hosted
    } else {
        Route::Custom
    }
}

/// A file that goes to the provider as it is: an image or a PDF document.
pub open spec fn structured(f: File) -> bool {
    is_image(f) || f.mime == "application/pdf"@
}

/// The files that go to the provider as they are.
pub open spec fn structured_files(files: Seq<File>) -> Seq<File>
    decreases files.len(),
{
    if files.len() == 0 {
        Seq::empty()
    } else if structured(files.last()) {
        structured_files(files.drop_last()).push(files.last())
    } else {
        structured_files(files.drop_last())
    }
}

/// A message with the content of a file put behind it.
pub open spec fn attached(message: Seq<char>, name: Seq<char>, content: Seq<char>) -> Seq<char> {
    message + "\n\n--- attached file: "@ + name + " ---\n"@ + content
}

/// A message with a text file put behind it, given what decoding the file gave.
pub open spec fn with_file(
    message: Seq<char>,
    name: Seq<char>,
    decoded: Result<Seq<u8>, Seq<char>>,
) -> Result<Seq<char>, Failure> {
    match decoded {
        Ok(bytes) => if valid_utf8(bytes) {
            Ok(attached(message, name, decode_utf8(bytes)))
        } else {
            Err(Failure::TextAttachment(name, "not valid UTF-8"@))
        },
        Err(reason) => Err(Failure::TextAttachment(name, reason)),
    }
}

/// A message with all files that do not go to the provider as they are put
/// behind it, in their order.
pub open spec fn inlined(message: Seq<char>, files: Seq<File>) -> Result<Seq<char>, Failure>
    decreases files.len(),
{
    if files.len() == 0 {
        Ok(message)
    } else {
        let before = inlined(message, files.drop_last());
        let f = files.last();
        match before {
            Ok(text) => if structured(f) {
                before
            } else {
                with_file(text, f.name, decoded_base64(f.base64))
            },
            Err(_) => before,
        }
    }
}

/// Puts a text file behind a message, given what decoding the file gave.
pub fn attach_text(message: &str, name: &str, decoded: Result<Vec<u8>, String>) -> (r: Result<
    String,
    LlmError,
>)
    ensures
        match r {
            Ok(text) => with_file(message@, name@, decoded_view(decoded)) == Ok::<
                Seq<char>,
                Failure,
            >(text@),
            Err(e) => with_file(message@, name@, decoded_view(decoded)) == Err::<
                Seq<char>,
                Failure,
            >(e@),
        },
{
    let bytes = match decoded {
        Ok(bytes) => bytes,
        Err(reason) => return Err(LlmError::TextAttachment(name.to_owned(), reason)),
    };
    match utf8_text(bytes) {
        Some(content) => Ok(
            message.to_owned().concat("\n\n--- attached file: ").concat(name).concat(
                " ---\n",
            ).concat(content.as_str()),
        ),
        None => Err(
            LlmError::TextAttachment(name.to_owned(), "not valid UTF-8".to_owned()),
        ),
    }
}

/// Puts the text files among the attachments of a request behind its message;
/// images and PDF documents stay attachments. The first file that is no text in
/// base 64 makes the request fail.
pub fn inline_attachments(request: StreamChatRequest) -> (r: Result<StreamChatRequest, LlmError>)
    ensures
        match r {
            Ok(out) => {
                &&& inlined(request.message@, files(request.attached_files@)) == Ok::<
                    Seq<char>,
                    Failure,
                >(out.message@)
                &&& files(out.attached_files@) == structured_files(files(request.attached_files@))
                &&& out.provider == request.provider
                &&& out.system_prompt == request.system_prompt
                &&& out.history == request.history
                &&& out.request_id == request.request_id
            },
            Err(e) => inlined(request.message@, files(request.attached_files@)) == Err::<
                Seq<char>,
                Failure,
            >(e@),
        },
{
    let ghost all = files(request.attached_files@);
    let ghost given = request.attached_files@;
    let mut message = request.message;
    let mut kept: Vec<AttachedFile> = Vec::new();
    let mut failed: Option<LlmError> = None;
    assert(files(kept@) =~= structured_files(all.take(0)));
    for f in it: request.attached_files
        invariant
            it.seq() == given,
            all == files(given),
            files(kept@) == structured_files(all.take(it.index())),
            match failed {
                None => inlined(request.message@, all.take(it.index())) == Ok::<Seq<char>, Failure>(
                    message@,
                ),
                Some(e) => inlined(request.message@, all.take(it.index())) == Err::<
                    Seq<char>,
                    Failure,
                >(e@),
            },
    {
        let ghost now = all.take(it.index() + 1);
        assert(now.drop_last() =~= all.take(it.index()));
        assert(now.last() == f@);
        if starts_with(f.mime.as_str(), "image/") || same_text(f.mime.as_str(), "application/pdf") {
            let ghost was = kept@;
            kept.push(f);
            assert(files(kept@) =~= files(was).push(f@));
        } else if failed.is_none() {
            let decoded = decode_base64(f.base64.as_str());
            match attach_text(message.as_str(), f.name.as_str(), decoded) {
                Ok(text) => {
                    message = text;
                },
                Err(e) => {
                    failed = Some(e);
                },
            }
        }
    }
    assert(all.take(all.len() as int) =~= all);
    match failed {
        Some(e) => Err(e),
        None => Ok(
            StreamChatRequest {
                provider: request.provider,
                message,
                system_prompt: request.system_prompt,
                history: request.history,
                attached_files: kept,
                request_id: request.request_id,
            },
        ),
    }
}

/// How a chat ends: the event that closes its stream, and what the command
/// returns.
#[derive(Debug)]
pub struct Ending {
    pub event: StreamEvent,
    pub returned: Result<String, String>,
}

/// The event that closes a stream.
pub open spec fn closing_event(result: Result<Seq<char>, Failure>, request_id: Seq<char>) -> Event {
    match result {
        Ok(full) => Event::Done(full, request_id),
        Err(Failure::Cancelled) => Event::Done(Seq::empty(), request_id),
        Err(failure) => Event::Error(failure.message(), request_id),
    }
}

/// What the command returns for a chat: the request's id, or the message of a
/// failure. A cancelled chat did not fail.
pub open spec fn returned(result: Result<Seq<char>, Failure>, request_id: Seq<char>) -> Result<
    Seq<char>,
    Seq<char>,
> {
    match result {
        Err(failure) if !(failure is Cancelled) => Err(failure.message()),
        _ => Ok(request_id),
    }
}

/// What a chat came to, by its model.
pub open spec fn chat_result(result: Result<String, LlmError>) -> Result<Seq<char>, Failure> {
    match result {
        Ok(full) => Ok(full@),
        Err(e) => Err(e@),
    }
}

/// Ends a chat. A cancelled one is done, with an empty response; any other
/// failure closes the stream with an error.
pub fn end_chat(result: Result<String, LlmError>, request_id: &str) -> (r: Ending)
    ensures
        r.event@ == closing_event(chat_result(result), request_id@),
        result_texts(r.returned) == returned(chat_result(result), request_id@),
{
    let id = request_id.to_owned();
    match result {
        Ok(full) => Ending {
            event: StreamEvent::Done { full_response: full, request_id: id.clone() },
            returned: Ok(id),
        },
        Err(LlmError::Cancelled) => Ending {
            event: StreamEvent::Done { full_response: String::new(), request_id: id.clone() },
            returned: Ok(id),
        },
        Err(e) => {
            let message = e.to_string();
            Ending {
                event: StreamEvent::Error { message: message.clone(), request_id: id },
                returned: Err(message),
            }
        },
    }
}

/// The event that closes a stream is a `Done` or an `Error`, never a chunk, and
/// it names the request.
pub proof fn lemma_closing_event(result: Result<Seq<char>, Failure>, request_id: Seq<char>)
    ensures
        match closing_event(result, request_id) {
            Event::Chunk(_) => false,
            Event::Done(_, id) => id == request_id,
            Event::Error(_, id) => id == request_id,
        },
        closing_event(result, request_id) is Error <==> (result matches Err(e) && !(
        e is Cancelled)),
{
}

/// The events of a whole chat: what its stream sent and the closing event.
pub open spec fn session(
    sent: Seq<Event>,
    result: Result<Seq<char>, Failure>,
    request_id: Seq<char>,
) -> Seq<Event> {
    sent.push(closing_event(result, request_id))
}

/// A whole chat sends chunks and then exactly one `Done` or `Error`, last, which
/// names the request. It is a `Done` if and only if the command returns the
/// request's id, and an `Error` with a message if and only if the command fails
/// with that message.
pub open spec fn proper(
    events: Seq<Event>,
    result: Result<Seq<char>, Failure>,
    request_id: Seq<char>,
) -> bool {
    &&& events.len() > 0
    &&& only_chunks(events.drop_last())
    &&& match events.last() {
        Event::Chunk(_) => false,
        Event::Done(_, id) => id == request_id && returned(result, request_id) == Ok::<
            Seq<char>,
            Seq<char>,
        >(request_id),
        Event::Error(message, id) => id == request_id && returned(result, request_id) == Err::<
            Seq<char>,
            Seq<char>,
        >(message),
    }
}

/// Every whole chat is a proper one: one whose stream was stopped at any step,
/// one whose stream ended, one that was answered in one piece, and one that
/// never got to a stream, whatever it came to.
pub proof fn lemma_session(
    pieces: Seq<Seq<u8>>,
    source: DeltaSource,
    answer: Seq<char>,
    result: Result<Seq<char>, Failure>,
    request_id: Seq<char>,
)
    ensures
        proper(session(sent(pieces, source), result, request_id), result, request_id),
        proper(session(run_events(pieces, source), result, request_id), result, request_id),
        proper(session(seq![Event::Chunk(answer)], result, request_id), result, request_id),
        proper(session(Seq::empty(), result, request_id), result, request_id),
{
    lemma_only_chunks(pieces, source);
    lemma_session_of(sent(pieces, source), result, request_id);
    lemma_session_of(run_events(pieces, source), result, request_id);
    lemma_session_of(seq![Event::Chunk(answer)], result, request_id);
    lemma_session_of(Seq::empty(), result, request_id);
}

proof fn lemma_session_of(
    chunks: Seq<Event>,
    result: Result<Seq<char>, Failure>,
    request_id: Seq<char>,
)
    requires
        only_chunks(chunks),
    ensures
        proper(session(chunks, result, request_id), result, request_id),
{
    assert(session(chunks, result, request_id).drop_last() =~= chunks);
}

/// The pieces of the answer that a complete stream sent make up the response
/// that its closing event carries.
pub proof fn lemma_chunks_make_response(
    body: Seq<u8>,
    source: DeltaSource,
    outcome: StreamOutcome,
    request_id: Seq<char>,
)
    requires
        outcome_of(body, source, outcome),
    ensures
        closing_event(Ok(outcome.full_response@), request_id) == Event::Done(
            joined(deltas(body_lines(body), source)),
            request_id,
        ),
{
}

/// Begins to set a secret of a provider; an empty value is refused.
pub fn set_provider_secret(secrets: &Secrets, provider_id: &str, name: &str, value: &str) -> (r:
    Result<Turn, String>)
    ensures
        match r {
            Ok(turn) => value@.len() > 0 && if secrets@.contains_key(provider_id@) {
                turn.puts(provider_id@, secrets@[provider_id@].insert(name@, value@))
            } else {
                turn matches Turn::Load { loading, .. } && loading.wanted matches Wanted::Put {
                    name: n,
                    value: v,
                } && n@ == name@ && v@ == value@ && turn.loads(provider_id@, loading.wanted)
            },
            Err(message) => value@.len() == 0 && message@ == "value must be non-empty"@,
        },
{
    if value.is_empty() {
        return Err("value must be non-empty".to_owned());
    }
    Ok(secrets.set(provider_id, name, value))
}

/// The names of the secrets of a provider, in order.
pub fn list_provider_secret_names(secrets: &StringMap<String>) -> (r: Vec<String>)
    ensures
        in_order(views(r@)),
        forall|name: Seq<char>| #[trigger]
            views(r@).contains(name) <==> texts(secrets@).contains_key(name),
{
    secrets.sorted_keys()
}

} // verus!
