//! Laws of the commands of the front end.

use vstd::prelude::*;
use vstd::utf8::{decode_utf8, valid_utf8};

use crate::bytes::decoded_base64;
use crate::commands::{closing_event, inlined, returned, structured, structured_files};
use crate::laws::messages::image_mime;
use crate::laws::text::lacks;
use crate::llm::{Event, Failure, LlmError, StreamEvent};
use crate::schema::{files, AttachedFile, File};

verus! {

/// The MIME type of a file that stays an attachment: that of an image, or that of
/// a PDF document and no other.
pub open spec fn stays(mime: Seq<char>) -> bool {
    image_mime(mime) || mime == "application/pdf"@
}

/// A file stays an attachment if and only if its MIME type begins with `image/`
/// or is `application/pdf`.
pub proof fn lemma_structured(f: File)
    ensures
        structured(f) <==> stays(f.mime),
{
    reveal_strlit("image/");
    if f.mime.len() >= 6 {
        assert(f.mime.take(6) =~= f.mime.subrange(0, 6));
    }
}

/// The attachments of the result are the files that stay attachments, each as it
/// is and in their order, and no others.
pub proof fn lemma_structured_files(a: Seq<File>, b: Seq<File>, f: File)
    ensures
        structured_files(a + b) == structured_files(a) + structured_files(b),
        structured_files(seq![f]) == (if stays(f.mime) {
            seq![f]
        } else {
            Seq::empty()
        }),
        structured_files(a).contains(f) <==> a.contains(f) && stays(f.mime),
{
    lemma_structured_concat(a, b);
    reveal_with_fuel(structured_files, 2);
    lemma_structured(f);
    assert(seq![f].drop_last() =~= Seq::empty());
    assert(Seq::<File>::empty().push(f) =~= seq![f]);
    lemma_structured_contains(a, f);
}

proof fn lemma_structured_concat(a: Seq<File>, b: Seq<File>)
    ensures
        structured_files(a + b) == structured_files(a) + structured_files(b),
    decreases b.len(),
{
    if b.len() == 0 {
        assert(a + b =~= a);
        assert(structured_files(a) + structured_files(b) =~= structured_files(a));
    } else {
        lemma_structured_concat(a, b.drop_last());
        assert((a + b).drop_last() =~= a + b.drop_last());
        assert(structured_files(a + b) =~= structured_files(a) + structured_files(b));
    }
}

proof fn lemma_structured_contains(files: Seq<File>, f: File)
    ensures
        structured_files(files).contains(f) <==> files.contains(f) && stays(f.mime),
    decreases files.len(),
{
    lemma_structured(f);
    if files.len() > 0 {
        let init = files.drop_last();
        let before = structured_files(init);
        let all = structured_files(files);
        lemma_structured_contains(init, f);
        if init.contains(f) {
            let k = init.index_of(f);
            assert(files[k] == f);
        }
        if files.contains(f) {
            let k = files.index_of(f);
            if k < init.len() {
                assert(init[k] == f);
            }
        }
        if before.contains(f) {
            let k = before.index_of(f);
            assert(all[k] == f);
        }
        if all.contains(f) {
            let k = all.index_of(f);
            if k < before.len() {
                assert(before[k] == f);
            }
        }
        if structured(files.last()) {
            assert(all[before.len() as int] == files.last());
        }
        assert(files[files.len() - 1] == files.last());
    }
}

/// How a text file stands in a message: under a line that names it, as it is.
pub open spec fn section(name: Seq<char>, content: Seq<char>) -> Seq<char> {
    "--- attached file: "@ + name + " ---\n"@ + content
}

/// A file that stays an attachment changes no message. Any other is put behind
/// the message, under a line that names it, with its decoded content as it is; one
/// that is no text in base 64 fails, with its name and the reason.
pub proof fn lemma_one_inlined(message: Seq<char>, f: File)
    ensures
        inlined(message, seq![f]) == (if stays(f.mime) {
            Ok(message)
        } else {
            match decoded_base64(f.base64) {
                Ok(bytes) => if valid_utf8(bytes) {
                    Ok(message + seq!['\n', '\n'] + section(f.name, decode_utf8(bytes)))
                } else {
                    Err(Failure::TextAttachment(f.name, "not valid UTF-8"@))
                },
                Err(reason) => Err(Failure::TextAttachment(f.name, reason)),
            }
        }),
{
    reveal_with_fuel(inlined, 2);
    lemma_structured(f);
    assert(seq![f].drop_last() =~= Seq::empty());
    reveal_strlit("\n\n--- attached file: ");
    reveal_strlit("--- attached file: ");
    if let Ok(bytes) = decoded_base64(f.base64) {
        let content = decode_utf8(bytes);
        assert("\n\n--- attached file: "@ =~= seq!['\n', '\n'] + "--- attached file: "@);
        assert(message + "\n\n--- attached file: "@ + f.name + " ---\n"@ + content =~= message
            + seq!['\n', '\n'] + section(f.name, content));
    }
}

/// Files are put behind a message one after the other, and the first that fails
/// makes all fail.
pub proof fn lemma_all_inlined(message: Seq<char>, a: Seq<File>, b: Seq<File>)
    ensures
        inlined(message, Seq::empty()) == Ok::<Seq<char>, Failure>(message),
        inlined(message, a + b) == (match inlined(message, a) {
            Ok(text) => inlined(text, b),
            Err(e) => Err(e),
        }),
    decreases b.len(),
{
    if b.len() == 0 {
        assert(a + b =~= a);
    } else {
        lemma_all_inlined(message, a, b.drop_last());
        assert((a + b).drop_last() =~= a + b.drop_last());
    }
}

proof fn lemma_message_first(message: Seq<char>, files: Seq<File>)
    ensures
        inlined(message, files) matches Ok(out) ==> out.len() >= message.len() && out.take(
            message.len() as int,
        ) == message,
    decreases files.len(),
{
    if files.len() > 0 {
        lemma_message_first(message, files.drop_last());
        if let Ok(text) = inlined(message, files.drop_last()) {
            if let Ok(out) = inlined(message, files) {
                assert(out.take(message.len() as int) =~= text.take(message.len() as int));
            }
        }
    } else {
        assert(message.take(message.len() as int) =~= message);
    }
}

/// Where no file fails, the message of the result begins with the message, and
/// for every file that does not stay an attachment it holds the line that names
/// it with its decoded content behind, and no attachment of the result is the
/// file.
pub proof fn lemma_inlined(message: Seq<char>, files: Seq<File>, i: int)
    requires
        0 <= i < files.len(),
        !stays(files[i].mime),
        inlined(message, files) is Ok,
    ensures
        ({
            let f = files[i];
            let out = inlined(message, files)->Ok_0;
            let bytes = decoded_base64(f.base64)->Ok_0;
            &&& decoded_base64(f.base64) is Ok
            &&& valid_utf8(bytes)
            &&& !lacks(out, section(f.name, decode_utf8(bytes)))
            &&& out.len() >= message.len() && out.take(message.len() as int) == message
            &&& !structured_files(files).contains(f)
        }),
{
    let f = files[i];
    let a = files.take(i);
    let b = files.skip(i + 1);
    let out = inlined(message, files)->Ok_0;
    assert(files =~= a + seq![f] + b);
    lemma_all_inlined(message, a + seq![f], b);
    lemma_all_inlined(message, a, seq![f]);
    lemma_message_first(message, files);
    lemma_structured_contains(files, f);
    let text = inlined(message, a)->Ok_0;
    lemma_one_inlined(text, f);
    let content = decode_utf8(decoded_base64(f.base64)->Ok_0);
    let part = section(f.name, content);
    let behind = text + seq!['\n', '\n'] + part;
    lemma_message_first(behind, b);
    let at = text.len() as int + 2;
    assert(out.subrange(at, at + part.len()) =~= part) by {
        assert(out.take(behind.len() as int) == behind);
        assert(behind.subrange(at, at + part.len()) =~= part);
        assert(out.subrange(at, at + part.len()) =~= out.take(behind.len() as int).subrange(
            at,
            at + part.len(),
        ));
    }
}

/// A chat that gave an answer is done with that answer, a cancelled one is done
/// with an empty answer, and both return the request's id; any other failure is
/// shown and returned with its message.
pub proof fn lemma_endings(full: Seq<char>, failure: Failure, request_id: Seq<char>)
    ensures
        closing_event(Ok(full), request_id) == Event::Done(full, request_id),
        returned(Ok(full), request_id) == Ok::<Seq<char>, Seq<char>>(request_id),
        closing_event(Err(Failure::Cancelled), request_id) == Event::Done(
            Seq::empty(),
            request_id,
        ),
        returned(Err(Failure::Cancelled), request_id) == Ok::<Seq<char>, Seq<char>>(request_id),
        !(failure is Cancelled) ==> closing_event(Err(failure), request_id) == Event::Error(
            failure.message(),
            request_id,
        ),
        !(failure is Cancelled) ==> returned(Err(failure), request_id) == Err::<
            Seq<char>,
            Seq<char>,
        >(failure.message()),
{
    assert(closing_event(Err(Failure::Cancelled), request_id)->Done_0 =~= Seq::empty());
}

/// What each failure is shown as: its kind in front, and all that is known of it
/// behind, as it is.
pub proof fn lemma_failure_messages(s: Seq<char>, t: Seq<char>, status: u16)
    ensures
        Failure::Reqwest(s).message() == s,
        Failure::Json(s).message() == s,
        Failure::Keychain(s).message() == "keychain: "@ + s,
        Failure::MissingVariable(s).message() == "missing variable: "@ + s,
        Failure::InvalidCurl(s).message() == "invalid curl: "@ + s,
        Failure::PluelyConfig(s).message() == "pluely config: "@ + s,
        Failure::CurlParse(s).message() == "curl parse: "@ + s,
        Failure::Channel(s).message() == "channel: "@ + s,
        Failure::TextAttachment(s, t).message() == "text attachment "@ + s + ": "@ + t,
        Failure::ProviderApi(status, s).message() == "provider api "@ + crate::text::decimal(
            status as nat,
        ) + ": "@ + s,
        Failure::PluelyUnlicensed.message() == "pluely unlicensed"@,
        Failure::Cancelled.message() == "cancelled"@,
{
}

/// The model of an event is what it holds.
pub proof fn lemma_event_model(event: StreamEvent)
    ensures
        match event {
            StreamEvent::Chunk { delta } => event@ == Event::Chunk(delta@),
            StreamEvent::Done { full_response, request_id } => event@ == Event::Done(
                full_response@,
                request_id@,
            ),
            StreamEvent::Error { message, request_id } => event@ == Event::Error(
                message@,
                request_id@,
            ),
        },
{
}

/// The model of an error is its kind and what it holds.
pub proof fn lemma_error_model(error: LlmError)
    ensures
        match error {
            LlmError::Reqwest(s) => error@ == Failure::Reqwest(s@),
            LlmError::Keychain(s) => error@ == Failure::Keychain(s@),
            LlmError::MissingVariable(s) => error@ == Failure::MissingVariable(s@),
            LlmError::InvalidCurl(s) => error@ == Failure::InvalidCurl(s@),
            LlmError::PluelyUnlicensed => error@ == Failure::PluelyUnlicensed,
            LlmError::PluelyConfig(s) => error@ == Failure::PluelyConfig(s@),
            LlmError::ProviderApi { status, body } => error@ == Failure::ProviderApi(status, body@),
            LlmError::CurlParse(s) => error@ == Failure::CurlParse(s@),
            LlmError::Json(s) => error@ == Failure::Json(s@),
            LlmError::Channel(s) => error@ == Failure::Channel(s@),
            LlmError::TextAttachment(s, t) => error@ == Failure::TextAttachment(s@, t@),
            LlmError::Cancelled => error@ == Failure::Cancelled,
        },
{
}

/// The model of a file is its name, its MIME type and its content, and the models
/// of files keep their order.
pub proof fn lemma_file_models(all: Seq<AttachedFile>, i: int)
    requires
        0 <= i < all.len(),
    ensures
        files(all).len() == all.len(),
        files(all)[i].name == all[i].name@,
        files(all)[i].mime == all[i].mime@,
        files(all)[i].base64 == all[i].base64@,
{
}

} // verus!
