use pluely::json::Json;
use pluely::llm::{LlmError, StreamEvent};
use pluely::stream::{
    extract_by_path, extract_chat_delta, extract_streaming_delta, extract_usage, frame_payload,
    step, Decoder, DeltaSource, Received, Step, StreamOutcome,
};

fn json(text: &str) -> Json {
    Json::parse(text).unwrap()
}

fn deltas(events: Vec<StreamEvent>) -> Vec<String> {
    events
        .into_iter()
        .map(|e| match e {
            StreamEvent::Chunk { delta } => delta,
            _ => panic!("not a chunk"),
        })
        .collect()
}

/// Runs a stream over the pieces of a body.
fn run(source: DeltaSource, pieces: &[&[u8]]) -> (Vec<String>, StreamOutcome) {
    let mut decoder = Decoder::new(source);
    let mut sent: Vec<String> = Vec::new();
    for piece in pieces {
        match step(decoder, Received::Bytes(piece.to_vec())) {
            Step::More { decoder: next, events } => {
                decoder = next;
                sent.extend(deltas(events));
            }
            _ => panic!("more expected"),
        }
    }
    match step(decoder, Received::End) {
        Step::Done { outcome, events } => {
            sent.extend(deltas(events));
            (sent, outcome)
        }
        _ => panic!("an end expected"),
    }
}

const BODY: &str = "event: x\ndata: {\"choices\":[{\"delta\":{\"content\":\"Hé\"}}],\"usage\":null}\r\n\n: note\ndata:{\"choices\":[{\"delta\":{\"content\":\"\"}}],\"usage\":{\"n\":1}}\ndata: {broken\n  data:   {\"choices\":[{\"delta\":{\"content\":\"llo\"}}],\"usage\":{\"n\":2}}\ndata: [DONE]\n";

#[test]
fn frames_make_up_the_answer() {
    let (sent, outcome) = run(DeltaSource::Chat, &[BODY.as_bytes()]);
    assert_eq!(sent, vec!["Hé".to_string(), "llo".to_string()]);
    assert_eq!(outcome.full_response, "Héllo");
    assert_eq!(outcome.usage.unwrap().to_text(), r#"{"n":1}"#);
}

#[test]
fn cuts_make_no_difference() {
    let (whole, end) = run(DeltaSource::Chat, &[BODY.as_bytes()]);
    let same = |pieces: &[&[u8]]| {
        let (sent, outcome) = run(DeltaSource::Chat, pieces);
        assert_eq!(sent, whole);
        assert_eq!(outcome.full_response, end.full_response);
        assert_eq!(outcome.usage, end.usage);
    };
    for cut in 0..=BODY.len() {
        let (a, b) = BODY.as_bytes().split_at(cut);
        same(&[a, b]);
        same(&[a, &[], b]);
    }
    let single: Vec<&[u8]> = BODY.as_bytes().chunks(1).collect();
    same(&single);
}

#[test]
fn a_cut_through_a_character_keeps_it() {
    let at = BODY.find('é').unwrap() + 1;
    let (a, b) = BODY.as_bytes().split_at(at);
    let (sent, outcome) = run(DeltaSource::Chat, &[a, b]);
    assert_eq!(sent[0], "Hé");
    assert_eq!(outcome.full_response, "Héllo");
}

#[test]
fn bytes_that_are_no_text_are_replaced() {
    let body: &[u8] = b"data: {\"text\":\"a\xffb\"}\ndata: {\"text\":\"c\xc3";
    let (sent, outcome) = run(DeltaSource::Path(String::new()), &[body, b"\"}\n"]);
    assert_eq!(sent, vec!["a\u{fffd}b".to_string(), "c\u{fffd}".to_string()]);
    assert_eq!(outcome.full_response, "a\u{fffd}bc\u{fffd}");
}

#[test]
fn a_line_is_read_when_its_break_has_come() {
    let mut decoder = Decoder::new(DeltaSource::Chat);
    let mut counts: Vec<usize> = Vec::new();
    for piece in [&b"data: {\"choices\":[{\"delta\":"[..], b"{\"content\":\"x\"}}]}", b"\n"] {
        counts.push(decoder.feed(piece).len());
    }
    assert_eq!(counts, vec![0, 0, 1]);
}

#[test]
fn the_last_line_break_may_be_missing() {
    let body = "data: {\"text\":\"a\"}\ndata: {\"text\":\"b\"}";
    let with = format!("{body}\n");
    for b in [body, with.as_str()] {
        let (sent, outcome) = run(DeltaSource::Path(String::new()), &[b.as_bytes()]);
        assert_eq!(sent, vec!["a".to_string(), "b".to_string()]);
        assert_eq!(outcome.full_response, "ab");
        assert!(outcome.usage.is_none());
    }
}

#[test]
fn an_empty_body_gives_an_empty_answer() {
    let (sent, outcome) = run(DeltaSource::Chat, &[]);
    assert!(sent.is_empty());
    assert_eq!(outcome.full_response, "");
    assert!(outcome.usage.is_none());
}

#[test]
fn cancelling_and_failing_stop_the_stream() {
    match step(Decoder::new(DeltaSource::Chat), Received::Cancelled) {
        Step::Stop(e) => assert_eq!(e, LlmError::Cancelled),
        _ => panic!("a stop expected"),
    }
    match step(
        Decoder::new(DeltaSource::Chat),
        Received::Failed("reset".to_string()),
    ) {
        Step::Stop(e) => assert_eq!(e.to_string(), "reset"),
        _ => panic!("a stop expected"),
    }
}

#[test]
fn lines_without_content_are_no_frames() {
    for line in ["", "data", "event: data:", "data:", "data:   ", "data: [DONE]", " data:[DONE] "] {
        assert_eq!(frame_payload(line), None);
    }
    assert_eq!(frame_payload("\tdata: x \r"), Some("x".to_string()));
}

#[test]
fn paths_lead_to_texts() {
    let v = json(r#"{"choices":[{"message":{"content":"a"}},{"x":1}],"0":"zero","":"e"}"#);
    for path in [
        "choices[0].message.content",
        "choices.0.message.content",
        "choices[+0]..message.content",
        "choices[0]message",
    ] {
        let expected = if path.ends_with("]message") { None } else { Some("a".to_string()) };
        assert_eq!(extract_by_path(&v, path), expected);
    }
    assert_eq!(extract_by_path(&v, "choices[1].x"), None);
    assert_eq!(extract_by_path(&v, "choices[2].x"), None);
    assert_eq!(extract_by_path(&v, "0"), None);
    assert_eq!(extract_by_path(&v, "choices"), None);
    assert_eq!(extract_by_path(&json("\"t\""), ""), Some("t".to_string()));
    assert_eq!(extract_by_path(&json("\"t\""), "[]."), Some("t".to_string()));
}

#[test]
fn a_number_that_does_not_fit_is_a_key() {
    let v = json(r#"{"99999999999999999999":"big"}"#);
    assert_eq!(
        extract_by_path(&v, "99999999999999999999"),
        Some("big".to_string())
    );
}

#[test]
fn deltas_are_looked_for_in_order() {
    let path = "choices[0].message.content";
    let both = json(r#"{"choices":[{"delta":{"content":"d"},"message":{"content":"m"}}]}"#);
    assert_eq!(extract_streaming_delta(&both, path), Some("d".to_string()));
    let whole = json(r#"{"choices":[{"delta":{"content":""},"message":{"content":"m"}}]}"#);
    assert_eq!(extract_streaming_delta(&whole, path), Some("m".to_string()));
    let google = json(r#"{"candidates":[{"content":{"parts":[{"text":"g"}]}}],"text":"t"}"#);
    assert_eq!(extract_streaming_delta(&google, path), Some("g".to_string()));
    let anthropic = json(r#"{"delta":{"text":"a"},"text":"t"}"#);
    assert_eq!(extract_streaming_delta(&anthropic, path), Some("a".to_string()));
    assert_eq!(extract_streaming_delta(&json(r#"{"text":"t"}"#), path), Some("t".to_string()));
    assert_eq!(extract_streaming_delta(&json("{}"), path), None);
}

#[test]
fn the_hosted_chat_has_its_own_place() {
    assert_eq!(
        extract_chat_delta(&json(r#"{"choices":[{"delta":{"content":"c"}}]}"#)),
        Some("c".to_string())
    );
    for other in [
        "1",
        r#"{"choices":[]}"#,
        r#"{"choices":[{"message":{"content":"c"}}]}"#,
        r#"{"choices":[{"delta":{"content":1}}]}"#,
    ] {
        assert_eq!(extract_chat_delta(&json(other)), None);
    }
}

#[test]
fn null_usage_says_nothing() {
    assert_eq!(extract_usage(&json(r#"{"usage":null}"#)), None);
    assert_eq!(extract_usage(&json("[]")), None);
    assert_eq!(extract_usage(&json(r#"{"usage":0}"#)).unwrap().to_text(), "0");
}
