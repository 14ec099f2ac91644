use pluely::commands::{
    attach_text, end_chat, inline_attachments, route, ProviderInput, Route, StreamChatRequest,
};
use pluely::llm::{LlmError, StreamEvent};
use pluely::schema::AttachedFile;
use pluely::state::Cancels;
use pluely::stream::{step, Decoder, DeltaSource, Received, Step};
use pluely::string_map::StringMap;

fn file(name: &str, mime: &str, base64: &str) -> AttachedFile {
    AttachedFile {
        name: name.to_string(),
        mime: mime.to_string(),
        base64: base64.to_string(),
    }
}

fn request(attached_files: Vec<AttachedFile>) -> StreamChatRequest {
    StreamChatRequest {
        provider: ProviderInput {
            id: "p".to_string(),
            curl: String::new(),
            response_content_path: String::new(),
            streaming: false,
            is_pluely_hosted: true,
            user_variables: StringMap::new(),
        },
        message: "m".to_string(),
        system_prompt: None,
        history: Vec::new(),
        attached_files,
        request_id: "r".to_string(),
    }
}

#[test]
fn text_files_go_into_the_message() {
    let r = inline_attachments(request(vec![
        file("a.txt", "text/plain", "aGVsbG8="),
        file("i", "image/png", "not base64 at all"),
        file("b.md", "text/markdown", "w6k="),
        file("d", "application/pdf", "!"),
    ]))
    .unwrap();
    assert_eq!(
        r.message,
        "m\n\n--- attached file: a.txt ---\nhello\n\n--- attached file: b.md ---\né"
    );
    let kept: Vec<&str> = r.attached_files.iter().map(|f| f.name.as_str()).collect();
    assert_eq!(kept, vec!["i", "d"]);
    assert_eq!(r.request_id, "r");
    assert!(r.provider.is_pluely_hosted);
}

#[test]
fn a_file_that_is_no_text_fails_the_request() {
    assert_eq!(
        inline_attachments(request(vec![
            file("a", "text/plain", "/w=="),
            file("b", "text/plain", "*"),
        ]))
        .unwrap_err(),
        LlmError::TextAttachment("a".to_string(), "not valid UTF-8".to_string())
    );
    assert_eq!(
        inline_attachments(request(vec![file("b", "text/plain", "a*==")])).unwrap_err(),
        LlmError::TextAttachment("b".to_string(), "Invalid symbol 42, offset 1.".to_string())
    );
}

#[test]
fn decoded_bytes_are_attached() {
    assert_eq!(
        attach_text("m", "n", Ok(b"x".to_vec())).unwrap(),
        "m\n\n--- attached file: n ---\nx"
    );
    assert_eq!(
        attach_text("m", "n", Err("why".to_string())).unwrap_err().to_string(),
        "text attachment n: why"
    );
}

#[test]
fn a_chat_ends_in_one_closing_event() {
    let ok = end_chat(Ok("full".to_string()), "r");
    assert_eq!(
        ok.event,
        StreamEvent::Done { full_response: "full".to_string(), request_id: "r".to_string() }
    );
    assert_eq!(ok.returned, Ok("r".to_string()));

    let cancelled = end_chat(Err(LlmError::Cancelled), "r");
    assert_eq!(
        cancelled.event,
        StreamEvent::Done { full_response: String::new(), request_id: "r".to_string() }
    );
    assert_eq!(cancelled.returned, Ok("r".to_string()));

    let failed = end_chat(
        Err(LlmError::ProviderApi { status: 429, body: "slow down".to_string() }),
        "r",
    );
    assert_eq!(
        failed.event,
        StreamEvent::Error {
            message: "provider api 429: slow down".to_string(),
            request_id: "r".to_string()
        }
    );
    assert_eq!(failed.returned, Err("provider api 429: slow down".to_string()));
}

#[test]
fn errors_have_their_messages() {
    let s = |t: &str| t.to_string();
    for (e, message) in [
        (LlmError::Reqwest(s("net")), "net"),
        (LlmError::Keychain(s("k")), "keychain: k"),
        (LlmError::MissingVariable(s("V")), "missing variable: V"),
        (LlmError::InvalidCurl("bad header"), "invalid curl: bad header"),
        (LlmError::PluelyUnlicensed, "pluely unlicensed"),
        (LlmError::PluelyConfig(s("c")), "pluely config: c"),
        (LlmError::ProviderApi { status: 0, body: s("") }, "provider api 0: "),
        (LlmError::ProviderApi { status: 65535, body: s("b") }, "provider api 65535: b"),
        (LlmError::CurlParse(s("p")), "curl parse: p"),
        (LlmError::Json(s("j")), "j"),
        (LlmError::Channel(s("ch")), "channel: ch"),
        (LlmError::TextAttachment(s("n"), s("r")), "text attachment n: r"),
        (LlmError::Cancelled, "cancelled"),
    ] {
        assert_eq!(e.to_string(), message);
    }
}

#[test]
fn the_provider_says_which_way_a_chat_takes() {
    let mut r = request(Vec::new());
    assert_eq!(route(&r), Route::Hosted);
    r.provider.is_pluely_hosted = false;
    assert_eq!(route(&r), Route::Custom);
}

#[test]
fn a_whole_chat_sends_chunks_and_one_closing_event() {
    for stopped in [false, true] {
        let mut events: Vec<StreamEvent> = Vec::new();
        let body: &[u8] = b"data: {\"text\":\"a\"}\ndata: {\"text\":\"b\"}";
        let first = step(
            Decoder::new(DeltaSource::Path(String::new())),
            Received::Bytes(body.to_vec()),
        );
        let decoder = match first {
            Step::More { decoder, events: more } => {
                events.extend(more);
                decoder
            }
            _ => panic!("more expected"),
        };
        let end = if stopped {
            Received::Failed("lost".to_string())
        } else {
            Received::End
        };
        let result = match step(decoder, end) {
            Step::Done { outcome, events: more } => {
                events.extend(more);
                Ok(outcome.full_response)
            }
            Step::Stop(e) => Err(e),
            _ => panic!("an end expected"),
        };
        let ending = end_chat(result, "r");
        events.push(ending.event);
        let closing = events.pop().unwrap();
        assert!(events.iter().all(|e| matches!(e, StreamEvent::Chunk { .. })));
        if stopped {
            assert_eq!(events.len(), 1);
            assert_eq!(ending.returned, Err("lost".to_string()));
            assert_eq!(
                closing,
                StreamEvent::Error { message: "lost".to_string(), request_id: "r".to_string() }
            );
        } else {
            assert_eq!(events.len(), 2);
            assert_eq!(ending.returned, Ok("r".to_string()));
            assert_eq!(
                closing,
                StreamEvent::Done { full_response: "ab".to_string(), request_id: "r".to_string() }
            );
        }
    }
}

#[test]
fn a_chat_can_be_cancelled_while_it_is_under_way() {
    let mut cancels: Cancels<u8> = Cancels::new();
    assert_eq!(cancels.cancel("a"), None);
    cancels.begin("a", 1);
    cancels.begin("b", 2);
    assert_eq!(cancels.cancel("a"), Some(1));
    assert_eq!(cancels.cancel("a"), None);
    cancels.end("b");
    assert_eq!(cancels.cancel("b"), None);
}
