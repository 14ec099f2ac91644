//! Event streams: the lines of `data:` frames that a provider sends, and the
//! pieces of the answer in them.
//!
//! A frame is a line `data: <json>`. The last line may lack its line break.
//! Lines without `data:`, the end mark `[DONE]` and frames that do not hold JSON
//! count for nothing.

use vstd::prelude::*;
use vstd::utf8::{decode_utf8, encode_scalar, encode_utf8, valid_utf8};

use crate::bytes::{lossy, lossy_text};
use crate::json::{optional_tree, parsed_json, well_formed, Json, Tree};
use crate::llm::{Event, Failure, LlmError, StreamEvent};
use crate::text::{
    chars_of, find, lemma_find_from, number_of, occurs_at, optional, parse_usize, replace,
    replaced, same_text, split, split_text, strip_prefix, trim, trimmed, views,
};

verus! {

/// A path with every `[` as a dot and without `]` and NUL.
pub open spec fn normalized(path: Seq<char>) -> Seq<char>
    decreases path.len(),
{
    if path.len() == 0 {
        Seq::empty()
    } else {
        let before = normalized(path.drop_last());
        let c = path.last();
        if c == '[' {
            before.push('.')
        } else if c == ']' || c == '\0' {
            before
        } else {
            before.push(c)
        }
    }
}

/// What a key leads to: the item of an array where the key writes a number, the
/// value in an object where not.
pub open spec fn child(t: Tree, key: Seq<char>) -> Option<Tree> {
    match number_of(key) {
        Some(n) if n <= usize::MAX => t.at(n as int),
        _ => t.get(key),
    }
}

/// What the keys lead to, one after the other; empty ones lead nowhere else.
pub open spec fn resolved(t: Tree, keys: Seq<Seq<char>>) -> Option<Tree>
    decreases keys.len(),
{
    if keys.len() == 0 {
        Some(t)
    } else if keys[0].len() == 0 {
        resolved(t, keys.skip(1))
    } else {
        match child(t, keys[0]) {
            Some(next) => resolved(next, keys.skip(1)),
            None => None,
        }
    }
}

/// The text at a path such as `choices[0].delta.content`.
pub open spec fn by_path(t: Tree, path: Seq<char>) -> Option<Seq<char>> {
    match resolved(t, split(normalized(path), '.')) {
        Some(found) => found.as_text(),
        None => None,
    }
}

fn normalize(path: &str) -> (r: String)
    ensures
        r@ == normalized(path@),
{
    let v = chars_of(path);
    let mut out = String::new();
    let mut i: usize = 0;
    assert(out@ =~= normalized(v@.take(0)));
    while i < v.len()
        invariant
            v@ == path@,
            i <= v@.len(),
            out@ == normalized(v@.take(i as int)),
        decreases v@.len() - i,
    {
        let c = v[i];
        assert(v@.take(i + 1).drop_last() == v@.take(i as int));
        assert(v@.take(i + 1).last() == c);
        if c == '[' {
            out.push('.');
        } else if c != ']' && c != '\0' {
            out.push(c);
        }
        i = i + 1;
    }
    assert(v@.take(i as int) == v@);
    out
}

fn child_of<'a>(value: &'a Json, key: &str) -> (r: Option<&'a Json>)
    ensures
        match r {
            Some(v) => child(value@, key@) == Some(v@),
            None => child(value@, key@) is None,
        },
{
    match parse_usize(key) {
        Some(index) => value.at(index),
        None => value.get(key),
    }
}

/// The text at a path such as `choices[0].delta.content`; none where the path
/// leads nowhere or to something else.
pub fn extract_by_path(value: &Json, path: &str) -> (r: Option<String>)
    ensures
        optional(r) == by_path(value@, path@),
{
    let keys = split_text(normalize(path).as_str(), '.');
    let ghost all = views(keys@);
    let mut current = value;
    let mut i: usize = 0;
    assert(all.skip(0) == all);
    while i < keys.len()
        invariant
            all == views(keys@),
            all == split(normalized(path@), '.'),
            i <= keys@.len(),
            resolved(value@, all) == resolved(current@, all.skip(i as int)),
        decreases keys@.len() - i,
    {
        let key = keys[i].as_str();
        assert(all.skip(i as int)[0] == key@);
        assert(all.skip(i as int).skip(1) == all.skip(i + 1));
        if !key.is_empty() {
            match child_of(current, key) {
                Some(next) => {
                    current = next;
                },
                None => {
                    return None;
                },
            }
        }
        i = i + 1;
    }
    match current.as_text() {
        Some(s) => Some(s.clone()),
        None => None,
    }
}

/// The first text, not empty, at one of the paths.
pub open spec fn first_text(t: Tree, paths: Seq<Seq<char>>) -> Option<Seq<char>>
    decreases paths.len(),
{
    if paths.len() == 0 {
        None
    } else {
        match by_path(t, paths[0]) {
            Some(s) if s.len() > 0 => Some(s),
            _ => first_text(t, paths.skip(1)),
        }
    }
}

/// Where a piece of the answer may stand: at the provider's path with `.delta.`
/// for `.message.`, at the places that other providers use, at the path itself.
pub open spec fn delta_paths(path: Seq<char>) -> Seq<Seq<char>> {
    seq![
        replaced(path, ".message."@, ".delta."@),
        "choices[0].delta.content"@,
        "candidates[0].content.parts[0].text"@,
        "delta.text"@,
        "text"@,
        path,
    ]
}

/// The piece of the answer in a frame, for a provider with the given path.
pub fn extract_streaming_delta(parsed: &Json, default_path: &str) -> (r: Option<String>)
    ensures
        optional(r) == first_text(parsed@, delta_paths(default_path@)),
{
    proof {
        reveal_strlit(".message.");
    }
    let paths: Vec<String> = vec![
        replace(default_path, ".message.", ".delta."),
        "choices[0].delta.content".to_owned(),
        "candidates[0].content.parts[0].text".to_owned(),
        "delta.text".to_owned(),
        "text".to_owned(),
        default_path.to_owned(),
    ];
    let ghost all = views(paths@);
    assert(all =~= delta_paths(default_path@));
    let mut i: usize = 0;
    assert(all.skip(0) == all);
    while i < paths.len()
        invariant
            all == views(paths@),
            i <= paths@.len(),
            all == delta_paths(default_path@),
            first_text(parsed@, all) == first_text(parsed@, all.skip(i as int)),
        decreases paths@.len() - i,
    {
        assert(all.skip(i as int)[0] == paths@[i as int]@);
        assert(all.skip(i as int).skip(1) == all.skip(i + 1));
        match extract_by_path(parsed, paths[i].as_str()) {
            Some(s) => {
                if !s.as_str().is_empty() {
                    return Some(s);
                }
            },
            None => {},
        }
        i = i + 1;
    }
    None
}

/// The piece of the answer in a frame of the hosted chat: the content of the
/// delta of the first choice.
pub open spec fn chat_delta(t: Tree) -> Option<Seq<char>> {
    match t.get("choices"@) {
        Some(choices) => match choices.at(0) {
            Some(choice) => match choice.get("delta"@) {
                Some(delta) => match delta.get("content"@) {
                    Some(content) => content.as_text(),
                    None => None,
                },
                None => None,
            },
            None => None,
        },
        None => None,
    }
}

/// The piece of the answer in a frame of the hosted chat.
pub fn extract_chat_delta(parsed: &Json) -> (r: Option<String>)
    ensures
        optional(r) == chat_delta(parsed@),
{
    let choices = match parsed.get("choices") {
        Some(v) => v,
        None => return None,
    };
    let choice = match choices.at(0) {
        Some(v) => v,
        None => return None,
    };
    let delta = match choice.get("delta") {
        Some(v) => v,
        None => return None,
    };
    let content = match delta.get("content") {
        Some(v) => v,
        None => return None,
    };
    match content.as_text() {
        Some(s) => Some(s.clone()),
        None => None,
    }
}

/// Where the pieces of an answer stand in its frames.
#[derive(Debug)]
pub enum DeltaSource {
    /// Where a custom provider has them, by its path.
    Path(String),
    /// Where the hosted chat has them.
    Chat,
}

impl DeltaSource {
    /// The piece of the answer in a frame; an empty one does not count.
    pub open spec fn delta(self, t: Tree) -> Option<Seq<char>> {
        let found = match self {
            DeltaSource::Path(path) => first_text(t, delta_paths(path@)),
            DeltaSource::Chat => chat_delta(t),
        };
        match found {
            Some(s) if s.len() > 0 => Some(s),
            _ => None,
        }
    }

    /// The piece of the answer in a frame.
    pub fn extract(&self, parsed: &Json) -> (r: Option<String>)
        ensures
            optional(r) == self.delta(parsed@),
    {
        let found = match self {
            DeltaSource::Path(path) => extract_streaming_delta(parsed, path.as_str()),
            DeltaSource::Chat => extract_chat_delta(parsed),
        };
        match found {
            Some(s) => if s.as_str().is_empty() {
                None
            } else {
                Some(s)
            },
            None => None,
        }
    }
}

/// What a frame says about usage, unless that is `null`.
pub open spec fn usage_in(t: Tree) -> Option<Tree> {
    match t.get("usage"@) {
        Some(u) if u != Tree::Null => Some(u),
        _ => None,
    }
}

/// What a frame says about usage.
pub fn extract_usage(parsed: &Json) -> (r: Option<Json>)
    ensures
        optional_tree(r) == usage_in(parsed@),
        parsed@.wf() ==> well_formed(r),
{
    match parsed.get("usage") {
        Some(Json::Null) => None,
        Some(u) => {
            let r = u.duplicate();
            assert(r@ != Tree::Null);
            Some(r)
        },
        None => None,
    }
}

/// The content of the frame that a line is.
pub open spec fn frame(line: Seq<char>) -> Option<Seq<char>> {
    let line = trimmed(line);
    if !occurs_at(line, "data:"@, 0) {
        None
    } else {
        let payload = trimmed(line.skip("data:"@.len() as int));
        if payload.len() == 0 || payload == "[DONE]"@ {
            None
        } else {
            Some(payload)
        }
    }
}

/// The content of the frame that a line is, if it is one.
pub fn frame_payload(line: &str) -> (r: Option<String>)
    ensures
        optional(r) == frame(line@),
{
    let line = trim(line);
    match strip_prefix(line.as_str(), "data:") {
        Some(rest) => {
            let payload = trim(rest.as_str());
            if payload.as_str().is_empty() || same_text(payload.as_str(), "[DONE]") {
                None
            } else {
                Some(payload)
            }
        },
        None => None,
    }
}

/// What a line holds: JSON in a frame.
pub open spec fn line_value(line: Seq<char>) -> Option<Tree> {
    match frame(line) {
        Some(payload) => match parsed_json(payload) {
            Ok(t) => Some(t),
            Err(_) => None,
        },
        None => None,
    }
}

/// The pieces of the answer in a sequence of lines.
pub open spec fn deltas(lines: Seq<Seq<char>>, source: DeltaSource) -> Seq<Seq<char>>
    decreases lines.len(),
{
    if lines.len() == 0 {
        Seq::empty()
    } else {
        let before = deltas(lines.drop_last(), source);
        match line_value(lines.last()) {
            Some(t) => match source.delta(t) {
                Some(delta) => before.push(delta),
                None => before,
            },
            None => before,
        }
    }
}

/// What the first line that says something about usage says.
pub open spec fn usage(lines: Seq<Seq<char>>) -> Option<Tree>
    decreases lines.len(),
{
    if lines.len() == 0 {
        None
    } else {
        match usage(lines.drop_last()) {
            Some(u) => Some(u),
            None => match line_value(lines.last()) {
                Some(t) => usage_in(t),
                None => None,
            },
        }
    }
}

/// Texts put together.
pub open spec fn joined(texts: Seq<Seq<char>>) -> Seq<char>
    decreases texts.len(),
{
    if texts.len() == 0 {
        Seq::empty()
    } else {
        joined(texts.drop_last()) + texts.last()
    }
}

/// The lines of a text; the last one may be empty.
pub open spec fn lines(text: Seq<char>) -> Seq<Seq<char>> {
    split(text, '\n')
}

/// The byte of a line break.
pub open spec fn line_break() -> u8 {
    10
}

/// The lines of a body, still as bytes; the last one may be empty.
pub open spec fn byte_lines(body: Seq<u8>) -> Seq<Seq<u8>>
    decreases body.len(),
{
    if body.len() == 0 {
        seq![Seq::empty()]
    } else {
        let before = byte_lines(body.drop_last());
        if body.last() == line_break() {
            before.push(Seq::empty())
        } else {
            before.drop_last().push(before.last().push(body.last()))
        }
    }
}

/// The text of a line: what its bytes encode, with replacement characters where
/// they are not UTF-8.
pub open spec fn line_text(line: Seq<u8>) -> Seq<char> {
    if valid_utf8(line) {
        decode_utf8(line)
    } else {
        lossy_text(line)
    }
}

/// The lines of a body; the last one may be empty.
pub open spec fn body_lines(body: Seq<u8>) -> Seq<Seq<char>> {
    byte_lines(body).map_values(|line: Seq<u8>| line_text(line))
}

/// The lines of a body that a line break ends.
pub open spec fn ended_lines(body: Seq<u8>) -> Seq<Seq<char>> {
    body_lines(body).drop_last()
}

/// The answer that a body makes up.
pub open spec fn response_in(body: Seq<u8>, source: DeltaSource) -> Seq<char> {
    joined(deltas(body_lines(body), source))
}

/// What a body says about usage.
pub open spec fn usage_of(body: Seq<u8>) -> Option<Tree> {
    usage(body_lines(body))
}

/// What came of a stream.
#[derive(Debug)]
pub struct StreamOutcome {
    pub full_response: String,
    pub usage: Option<Json>,
}

/// A stream while it is received.
pub struct Decoder {
    source: DeltaSource,
    received: Ghost<Seq<u8>>,
    buffer: Vec<u8>,
    full_response: String,
    usage: Option<Json>,
}

/// A text falls into at least one line.
pub proof fn lemma_split_some(s: Seq<char>, c: char)
    ensures
        split(s, c).len() > 0,
    decreases s.len(),
{
}

/// Adding to a text keeps its lines but the last, which goes on.
proof fn lemma_split_append(a: Seq<char>, b: Seq<char>, c: char)
    ensures
        split(a + b, c) == split(a, c).drop_last() + split(split(a, c).last() + b, c),
    decreases a.len(),
{
    let sep = seq![c];
    lemma_find_from(a, sep, 0);
    lemma_find_from(a + b, sep, 0);
    match find(a, sep) {
        Some(i) => {
            assert(a.subrange(i, i + 1) == sep);
            assert((a + b).subrange(i, i + 1) =~= a.subrange(i, i + 1));
            assert(occurs_at(a + b, sep, i));
            let k = find(a + b, sep)->0;
            if k < i {
                assert((a + b).subrange(k, k + 1) =~= a.subrange(k, k + 1));
                assert(occurs_at(a, sep, k));
            }
            assert(k == i);
            let rest = a.skip(i + 1);
            lemma_split_append(rest, b, c);
            lemma_split_some(rest, c);
            assert((a + b).skip(i + 1) =~= rest + b);
            assert((a + b).take(i) =~= a.take(i));
            let whole = split(a, c);
            assert(whole == seq![a.take(i)] + split(rest, c));
            assert(whole.last() == split(rest, c).last());
            assert(whole.drop_last() =~= seq![a.take(i)] + split(rest, c).drop_last());
            assert(split(a + b, c) == seq![a.take(i)] + split(rest + b, c));
            assert(split(a + b, c) =~= whole.drop_last() + split(whole.last() + b, c));
        },
        None => {
            assert(split(a, c) == seq![a]);
            assert(split(a, c).drop_last() =~= Seq::empty());
            assert(split(a + b, c) =~= Seq::<Seq<char>>::empty() + split(a + b, c));
        },
    }
}

/// What one more byte does to the lines of a body.
proof fn lemma_body_lines_push(body: Seq<u8>, byte: u8)
    ensures
        body_lines(body).len() > 0,
        body_lines(body).len() == byte_lines(body).len(),
        body_lines(body).last() == line_text(byte_lines(body).last()),
        byte == line_break() ==> {
            &&& byte_lines(body.push(byte)).last() == Seq::<u8>::empty()
            &&& ended_lines(body.push(byte)) == body_lines(body)
        },
        byte != line_break() ==> {
            &&& byte_lines(body.push(byte)).last() == byte_lines(body).last().push(byte)
            &&& ended_lines(body.push(byte)) == ended_lines(body)
        },
{
    lemma_byte_lines_some(body);
    let more = body.push(byte);
    assert(more.drop_last() =~= body);
    if byte == line_break() {
        assert(ended_lines(more) =~= body_lines(body));
    } else {
        assert(ended_lines(more) =~= ended_lines(body));
    }
}

proof fn lemma_byte_lines_some(body: Seq<u8>)
    ensures
        byte_lines(body).len() > 0,
    decreases body.len(),
{
    if body.len() > 0 {
        lemma_byte_lines_some(body.drop_last());
    }
}

impl Decoder {
    /// All bytes received so far.
    pub closed spec fn bytes(&self) -> Seq<u8> {
        self.received@
    }

    /// Where the pieces of the answer stand.
    pub closed spec fn source(&self) -> DeltaSource {
        self.source
    }

    #[verifier::type_invariant]
    closed spec fn wf(self) -> bool {
        let ended = ended_lines(self.received@);
        &&& self.buffer@ == byte_lines(self.received@).last()
        &&& self.full_response@ == joined(deltas(ended, self.source))
        &&& optional_tree(self.usage) == usage(ended)
        &&& well_formed(self.usage)
    }

    /// A stream of which nothing was received yet.
    pub fn new(source: DeltaSource) -> (r: Decoder)
        ensures
            r.bytes() == Seq::<u8>::empty(),
            r.source() == source,
    {
        let ghost none = Seq::<u8>::empty();
        assert(ended_lines(none) =~= Seq::empty());
        Decoder {
            source,
            received: Ghost(none),
            buffer: Vec::new(),
            full_response: String::new(),
            usage: None,
        }
    }
}

/// What came of a stream of which `body` was received.
pub open spec fn outcome_of(body: Seq<u8>, source: DeltaSource, outcome: StreamOutcome) -> bool {
    &&& outcome.full_response@ == response_in(body, source)
    &&& optional_tree(outcome.usage) == usage_of(body)
    &&& well_formed(outcome.usage)
}

/// What a line adds: the piece of the answer in it, and what it says about
/// usage.
fn line_parts(line: &str, source: &DeltaSource) -> (r: (Option<String>, Option<Json>))
    ensures
        match line_value(line@) {
            Some(t) => optional(r.0) == source.delta(t) && optional_tree(r.1) == usage_in(t),
            None => r.0 is None && r.1 is None,
        },
        well_formed(r.1),
{
    let payload = match frame_payload(line) {
        Some(payload) => payload,
        None => return (None, None),
    };
    match Json::parse(payload.as_str()) {
        Ok(parsed) => (source.extract(&parsed), extract_usage(&parsed)),
        Err(_) => (None, None),
    }
}

impl Decoder {
    /// Takes in a further piece of the body; gives the pieces of the answer
    /// that the lines ended by it hold. A line is read when its line break has
    /// come, however many pieces it came in.
    pub fn feed(&mut self, bytes: &[u8]) -> (r: Vec<String>)
        ensures
            final(self).bytes() == old(self).bytes() + bytes@,
            final(self).source() == old(self).source(),
            deltas(ended_lines(final(self).bytes()), final(self).source()) == deltas(
                ended_lines(old(self).bytes()),
                old(self).source(),
            ) + views(r@),
    {
        let mut own = Decoder::new(DeltaSource::Chat);
        std::mem::swap(self, &mut own);
        proof {
            use_type_invariant(&own);
        }
        let Decoder { source, received, buffer, full_response, usage: said } = own;
        let ghost start = deltas(ended_lines(received@), source);
        let mut buffer = buffer;
        let mut full = full_response;
        let mut said = said;
        let mut out: Vec<String> = Vec::new();
        let mut k: usize = 0;
        assert(received@ + bytes@.take(0) =~= received@);
        assert(start =~= start + views(out@));
        while k < bytes.len()
            invariant
                k <= bytes@.len(),
                buffer@ == byte_lines(received@ + bytes@.take(k as int)).last(),
                full@ == joined(deltas(ended_lines(received@ + bytes@.take(k as int)), source)),
                optional_tree(said) == usage(ended_lines(received@ + bytes@.take(k as int))),
                well_formed(said),
                deltas(ended_lines(received@ + bytes@.take(k as int)), source) == start + views(
                    out@,
                ),
            decreases bytes@.len() - k,
        {
            let byte = bytes[k];
            let ghost seen = received@ + bytes@.take(k as int);
            let ghost now = seen.push(byte);
            proof {
                assert(received@ + bytes@.take(k + 1) =~= now);
                lemma_body_lines_push(seen, byte);
            }
            if byte == 10 {
                let line = lossy(buffer.as_slice());
                let ghost ended = ended_lines(now);
                let ghost had = out@;
                assert(line@ == line_text(buffer@));
                assert(ended.drop_last() =~= ended_lines(seen));
                assert(ended.last() == line@);
                let (delta, use_said) = line_parts(line.as_str(), &source);
                if said.is_none() {
                    said = use_said;
                }
                match delta {
                    Some(delta) => {
                        full.append(delta.as_str());
                        let ghost ds = deltas(ended_lines(seen), source);
                        out.push(delta);
                        assert(deltas(ended, source) == ds.push(delta@));
                        assert(ds.push(delta@).drop_last() =~= ds);
                        assert(views(out@) =~= views(had).push(delta@));
                        assert(deltas(ended, source) =~= start + views(out@));
                    },
                    None => {},
                }
                buffer = Vec::new();
                assert(buffer@ =~= Seq::empty());
            } else {
                buffer.push(byte);
            }
            k = k + 1;
        }
        assert(bytes@.take(k as int) =~= bytes@);
        *self = Decoder {
            source,
            received: Ghost(received@ + bytes@),
            buffer,
            full_response: full,
            usage: said,
        };
        out
    }

    /// Ends the stream; gives what came of it, and the piece of the answer that
    /// a last line without a line break holds.
    pub fn finish(self) -> (r: (StreamOutcome, Option<String>))
        ensures
            outcome_of(self.bytes(), self.source(), r.0),
            deltas(body_lines(self.bytes()), self.source()) == (match r.1 {
                Some(delta) => deltas(ended_lines(self.bytes()), self.source()).push(delta@),
                None => deltas(ended_lines(self.bytes()), self.source()),
            }),
    {
        proof {
            use_type_invariant(&self);
            lemma_body_lines_push(self.received@, 0);
        }
        let ghost all = body_lines(self.received@);
        let Decoder { source, received, buffer, full_response, usage: said } = self;
        let mut full = full_response;
        let mut said = said;
        let line = lossy(buffer.as_slice());
        assert(line@ == all.last());
        let (delta, use_said) = line_parts(line.as_str(), &source);
        if said.is_none() {
            said = use_said;
        }
        if let Some(d) = &delta {
            full.append(d.as_str());
            let ghost ds = deltas(all.drop_last(), source);
            assert(ds.push(d@).drop_last() =~= ds);
        }
        (StreamOutcome { full_response: full, usage: said }, delta)
    }
}

/// What the transport reports of a stream.
#[derive(Debug)]
pub enum Received {
    /// The user cancelled the request.
    Cancelled,
    /// The connection failed, with this message.
    Failed(String),
    /// A piece of the body.
    Bytes(Vec<u8>),
    /// The body ended.
    End,
}

/// What to do next with a stream, after `events` were sent.
pub enum Step {
    /// Wait for more.
    More { decoder: Decoder, events: Vec<StreamEvent> },
    /// The stream is complete.
    Done { outcome: StreamOutcome, events: Vec<StreamEvent> },
    /// The stream failed.
    Stop(LlmError),
}

/// The events that carry pieces of the answer.
pub open spec fn chunks(deltas: Seq<Seq<char>>) -> Seq<Event> {
    deltas.map_values(|delta: Seq<char>| Event::Chunk(delta))
}

/// Every event is a chunk.
pub open spec fn only_chunks(events: Seq<Event>) -> bool {
    forall|i: int| 0 <= i < events.len() ==> #[trigger] events[i] is Chunk
}

/// What a sequence of events says.
pub open spec fn event_views(events: Seq<StreamEvent>) -> Seq<Event> {
    events.map_values(|event: StreamEvent| event@)
}

fn chunk_events(deltas: Vec<String>) -> (r: Vec<StreamEvent>)
    ensures
        event_views(r@) == chunks(views(deltas@)),
{
    let ghost all = deltas@;
    let mut out: Vec<StreamEvent> = Vec::new();
    for delta in it: deltas
        invariant
            it.seq() == all,
            out@.len() == it.index(),
            forall|i: int| 0 <= i < it.index() ==> (#[trigger] out@[i])@ == Event::Chunk(all[i]@),
    {
        out.push(StreamEvent::Chunk { delta });
    }
    assert(event_views(out@) =~= chunks(views(all)));
    out
}

/// The events that a piece of a body behind `before` has sent: those of the
/// lines that it ends.
pub open spec fn step_events(before: Seq<u8>, piece: Seq<u8>, source: DeltaSource) -> Seq<Event> {
    let done = chunks(deltas(ended_lines(before), source));
    chunks(deltas(ended_lines(before + piece), source)).skip(done.len() as int)
}

/// The events that the end of a body has sent: those of a last line without a
/// line break.
pub open spec fn end_events(body: Seq<u8>, source: DeltaSource) -> Seq<Event> {
    let done = chunks(deltas(ended_lines(body), source));
    chunks(deltas(body_lines(body), source)).skip(done.len() as int)
}

/// Takes a stream one step on. A cancelled one fails, whatever was received;
/// one that ended counts its last line even without a line break.
pub fn step(decoder: Decoder, received: Received) -> (r: Step)
    ensures
        match (received, r) {
            (Received::Cancelled, Step::Stop(e)) => e@ == Failure::Cancelled,
            (Received::Failed(message), Step::Stop(e)) => e@ == Failure::Reqwest(message@),
            (Received::Bytes(bytes), Step::More { decoder: next, events }) => {
                &&& next.source() == decoder.source()
                &&& next.bytes() == decoder.bytes() + bytes@
                &&& event_views(events@) == step_events(
                    decoder.bytes(),
                    bytes@,
                    decoder.source(),
                )
            },
            (Received::End, Step::Done { outcome, events }) => {
                &&& outcome_of(decoder.bytes(), decoder.source(), outcome)
                &&& event_views(events@) == end_events(decoder.bytes(), decoder.source())
                &&& valid_utf8(decoder.bytes()) ==> outcome.full_response@ == joined(
                    deltas(lines(decode_utf8(decoder.bytes())), decoder.source()),
                )
            },
            _ => false,
        },
{
    match received {
        Received::Cancelled => Step::Stop(LlmError::Cancelled),
        Received::Failed(message) => Step::Stop(LlmError::Reqwest(message)),
        Received::Bytes(bytes) => {
            let ghost had = deltas(ended_lines(decoder.bytes()), decoder.source());
            let mut decoder = decoder;
            let deltas = decoder.feed(bytes.as_slice());
            let events = chunk_events(deltas);
            assert(chunks(had + views(deltas@)).skip(chunks(had).len() as int) =~= chunks(
                views(deltas@),
            ));
            Step::More { decoder, events }
        },
        Received::End => {
            proof {
                if valid_utf8(decoder.bytes()) {
                    lemma_utf8_lines(decoder.bytes());
                }
            }
            let ghost had = deltas(ended_lines(decoder.bytes()), decoder.source());
            let (outcome, last) = decoder.finish();
            let mut deltas: Vec<String> = Vec::new();
            if let Some(delta) = last {
                deltas.push(delta);
                assert(had + views(deltas@) =~= had.push(delta@));
            } else {
                assert(had + views(deltas@) =~= had);
            }
            let events = chunk_events(deltas);
            assert(chunks(had + views(deltas@)).skip(chunks(had).len() as int) =~= chunks(
                views(deltas@),
            ));
            Step::Done { outcome, events }
        },
    }
}

/// The events that the pieces of a body have sent, one step for each.
pub open spec fn sent(pieces: Seq<Seq<u8>>, source: DeltaSource) -> Seq<Event>
    decreases pieces.len(),
{
    if pieces.len() == 0 {
        Seq::empty()
    } else {
        sent(pieces.drop_last(), source) + step_events(
            pieces.drop_last().flatten(),
            pieces.last(),
            source,
        )
    }
}

/// The events of a stream whose body came in these pieces and ended.
pub open spec fn run_events(pieces: Seq<Seq<u8>>, source: DeltaSource) -> Seq<Event> {
    sent(pieces, source) + end_events(pieces.flatten(), source)
}

/// Lines that were ended stay ended, and first.
proof fn lemma_ended_stay(before: Seq<u8>, piece: Seq<u8>)
    ensures
        ended_lines(before).len() <= ended_lines(before + piece).len(),
        ended_lines(before + piece).take(ended_lines(before).len() as int) == ended_lines(before),
    decreases piece.len(),
{
    let ended = ended_lines(before);
    if piece.len() == 0 {
        assert(before + piece =~= before);
        assert(ended.take(ended.len() as int) =~= ended);
    } else {
        let init = piece.drop_last();
        lemma_ended_stay(before, init);
        lemma_body_lines_push(before + init, piece.last());
        assert(before + piece =~= (before + init).push(piece.last()));
        let some = ended_lines(before + init);
        let all = ended_lines(before + piece);
        if piece.last() == line_break() {
            assert(all.drop_last() =~= some);
            assert(all.take(ended.len() as int) =~= some.take(ended.len() as int));
        }
    }
}

/// The pieces of the answer in the first lines are the first pieces.
proof fn lemma_deltas_first(lines: Seq<Seq<char>>, n: int, source: DeltaSource)
    requires
        0 <= n <= lines.len(),
    ensures
        deltas(lines.take(n), source).len() <= deltas(lines, source).len(),
        deltas(lines, source).take(deltas(lines.take(n), source).len() as int) == deltas(
            lines.take(n),
            source,
        ),
    decreases lines.len(),
{
    let first = deltas(lines.take(n), source);
    let all = deltas(lines, source);
    if n == lines.len() {
        assert(lines.take(n) =~= lines);
        assert(all.take(all.len() as int) =~= all);
    } else {
        let init = lines.drop_last();
        lemma_deltas_first(init, n, source);
        assert(init.take(n) =~= lines.take(n));
        assert(all.take(first.len() as int) =~= deltas(init, source).take(first.len() as int));
    }
}

/// The events of a stream are those of the pieces of the answer in the whole
/// body: as long as it goes on, of its ended lines; when it ended, of all.
pub proof fn lemma_run_events(pieces: Seq<Seq<u8>>, source: DeltaSource)
    ensures
        sent(pieces, source) == chunks(deltas(ended_lines(pieces.flatten()), source)),
        run_events(pieces, source) == chunks(deltas(body_lines(pieces.flatten()), source)),
    decreases pieces.len(),
{
    let body = pieces.flatten();
    if pieces.len() == 0 {
        assert(body =~= Seq::<u8>::empty());
        assert(ended_lines(body) =~= Seq::empty());
        assert(sent(pieces, source) =~= chunks(deltas(ended_lines(body), source)));
    } else {
        let init = pieces.drop_last();
        let before = init.flatten();
        lemma_run_events(init, source);
        pieces.lemma_flatten_and_flatten_alt_are_equivalent();
        init.lemma_flatten_and_flatten_alt_are_equivalent();
        assert(body =~= before + pieces.last());
        lemma_ended_stay(before, pieces.last());
        let n = ended_lines(before).len() as int;
        lemma_deltas_first(ended_lines(body), n, source);
        let some = deltas(ended_lines(before), source);
        let all = deltas(ended_lines(body), source);
        assert(chunks(all).take(some.len() as int) =~= chunks(all.take(some.len() as int)));
        assert(sent(pieces, source) =~= chunks(all));
    }
    lemma_body_lines_push(body, 0);
    let ended = ended_lines(body);
    lemma_deltas_first(body_lines(body), ended.len() as int, source);
    assert(body_lines(body).take(ended.len() as int) =~= ended);
    let some = deltas(ended, source);
    let all = deltas(body_lines(body), source);
    assert(chunks(all).take(some.len() as int) =~= chunks(all.take(some.len() as int)));
    assert(run_events(pieces, source) =~= chunks(all));
}

/// Everything that a stream sends, at whatever step, is a chunk.
pub proof fn lemma_only_chunks(pieces: Seq<Seq<u8>>, source: DeltaSource)
    ensures
        only_chunks(sent(pieces, source)),
        only_chunks(run_events(pieces, source)),
{
    lemma_run_events(pieces, source);
}

/// How a body is cut into pieces makes no difference: not to the answer, not to
/// what it says about usage, and not to the events, wherever the cuts are.
pub proof fn lemma_cuts(a: Seq<Seq<u8>>, b: Seq<Seq<u8>>, source: DeltaSource)
    requires
        a.flatten() == b.flatten(),
    ensures
        response_in(a.flatten(), source) == response_in(b.flatten(), source),
        usage_of(a.flatten()) == usage_of(b.flatten()),
        run_events(a, source) == run_events(b, source),
        forall|x: StreamOutcome, y: StreamOutcome|
            outcome_of(a.flatten(), source, x) && outcome_of(b.flatten(), source, y)
                ==> x.full_response@ == y.full_response@ && optional_tree(x.usage)
                == optional_tree(y.usage),
{
    lemma_run_events(a, source);
    lemma_run_events(b, source);
}

proof fn lemma_encode_push(text: Seq<char>, c: char)
    ensures
        encode_utf8(text.push(c)) == encode_utf8(text) + encode_scalar(c as u32),
    decreases text.len(),
{
    reveal_with_fuel(encode_utf8, 2);
    let more = text.push(c);
    if text.len() == 0 {
        assert(more.drop_first() =~= Seq::empty());
        assert(encode_utf8(more) =~= encode_utf8(text) + encode_scalar(c as u32));
    } else {
        lemma_encode_push(text.drop_first(), c);
        assert(more.drop_first() =~= text.drop_first().push(c));
        assert(encode_utf8(more) =~= encode_utf8(text) + encode_scalar(c as u32));
    }
}

/// A line break is one byte; no other character has that byte in it.
proof fn lemma_encoded_line_break(c: char)
    ensures
        c == '\n' ==> encode_scalar(c as u32) == seq![line_break()],
        c != '\n' ==> !encode_scalar(c as u32).contains(line_break()),
{
    let v = c as u32;
    if c == '\n' {
        assert((10u32 & 0x7F) as u8 == 10u8) by (bit_vector);
        assert(encode_scalar(v) =~= seq![line_break()]);
    } else {
        assert(v <= 0x7F && v != 10 ==> (v & 0x7F) as u8 != 10u8) by (bit_vector);
        assert(forall|x: u8| #[trigger] (0x80u8 | x) >= 0x80) by (bit_vector);
        assert(forall|x: u8| #[trigger] (0xC0u8 | x) >= 0x80) by (bit_vector);
        assert(forall|x: u8| #[trigger] (0xE0u8 | x) >= 0x80) by (bit_vector);
        assert(forall|x: u8| #[trigger] (0xF0u8 | x) >= 0x80) by (bit_vector);
    }
}

/// Bytes without a line break go on with the last line.
proof fn lemma_byte_lines_more(body: Seq<u8>, more: Seq<u8>)
    requires
        !more.contains(line_break()),
    ensures
        byte_lines(body + more) == byte_lines(body).drop_last().push(
            byte_lines(body).last() + more,
        ),
    decreases more.len(),
{
    lemma_byte_lines_some(body);
    let all = byte_lines(body);
    if more.len() == 0 {
        assert(body + more =~= body);
        assert(all.last() + more =~= all.last());
        assert(all =~= all.drop_last().push(all.last()));
    } else {
        let init = more.drop_last();
        assert(more.contains(more.last()));
        assert forall|i: int| 0 <= i < init.len() implies init[i] != line_break() by {
            assert(more.contains(more[i]));
        }
        lemma_byte_lines_more(body, init);
        assert((body + more).drop_last() =~= body + init);
        assert(all.last() + more =~= (all.last() + init).push(more.last()));
        assert(byte_lines(body + more) =~= all.drop_last().push(all.last() + more));
    }
}

/// What one more character does to the lines of a text.
proof fn lemma_lines_push(text: Seq<char>, c: char)
    ensures
        lines(text).len() > 0,
        c == '\n' ==> lines(text.push(c)) == lines(text).push(Seq::empty()),
        c != '\n' ==> lines(text.push(c)) == lines(text).drop_last().push(
            lines(text).last().push(c),
        ),
{
    let nl = '\n';
    let sep = seq![nl];
    let none = Seq::<char>::empty();
    let all = lines(text);
    let last = all.last();
    lemma_split_some(text, nl);
    lemma_split_append(text, seq![c], nl);
    assert(text + seq![c] =~= text.push(c));
    lemma_last_lacks(text, nl);
    let piece = last + seq![c];
    lemma_find_from(piece, sep, 0);
    if c == nl {
        assert(piece.subrange(last.len() as int, last.len() as int + 1) =~= sep);
        assert(occurs_at(piece, sep, last.len() as int));
        let k = find(piece, sep)->0;
        if k < last.len() {
            assert(piece.subrange(k, k + 1)[0] == last[k]);
        }
        assert(piece.take(k) =~= last);
        assert(piece.skip(k + 1) =~= none);
        lemma_find_from(none, sep, 0);
        assert(split(none, nl) == seq![none]);
        assert(split(piece, nl) == seq![last] + seq![none]);
        assert(lines(text.push(c)) =~= all.push(none));
    } else {
        if let Some(k) = find(piece, sep) {
            assert(piece.subrange(k, k + 1)[0] == piece[k]);
            if k < last.len() {
                assert(last.contains(last[k]));
            }
        }
        assert(split(piece, nl) == seq![piece]);
        assert(piece =~= last.push(c));
        assert(lines(text.push(c)) =~= all.drop_last().push(last.push(c)));
    }
}

proof fn lemma_encoded_lines(text: Seq<char>)
    ensures
        byte_lines(encode_utf8(text)) == lines(text).map_values(
            |line: Seq<char>| encode_utf8(line),
        ),
    decreases text.len(),
{
    let none = Seq::<char>::empty();
    if text.len() == 0 {
        lemma_find_from(none, seq!['\n'], 0);
        assert(text =~= none);
        assert(lines(text) == seq![none]);
        assert(encode_utf8(none) =~= Seq::empty());
        assert(byte_lines(encode_utf8(text)) =~= lines(text).map_values(
            |line: Seq<char>| encode_utf8(line),
        ));
    } else {
        let init = text.drop_last();
        let c = text.last();
        assert(text =~= init.push(c));
        lemma_encoded_lines(init);
        lemma_encode_push(init, c);
        lemma_encoded_line_break(c);
        lemma_lines_push(init, c);
        let body = encode_utf8(init);
        let added = encode_scalar(c as u32);
        if c == '\n' {
            assert((body + added).drop_last() =~= body);
            assert(encode_utf8(none) =~= Seq::empty());
        } else {
            lemma_byte_lines_more(body, added);
            lemma_encode_push(lines(init).last(), c);
        }
        assert(byte_lines(encode_utf8(text)) =~= lines(text).map_values(
            |line: Seq<char>| encode_utf8(line),
        ));
    }
}

/// The lines of a body in UTF-8 are the lines of the text that it encodes.
pub proof fn lemma_utf8_lines(body: Seq<u8>)
    requires
        valid_utf8(body),
    ensures
        body_lines(body) == lines(decode_utf8(body)),
{
    let text = decode_utf8(body);
    vstd::utf8::decode_utf8_encode_utf8(body);
    lemma_encoded_lines(text);
    let all = lines(text);
    assert forall|i: int| 0 <= i < all.len() implies #[trigger] body_lines(body)[i] == all[i] by {
        vstd::utf8::encode_utf8_valid_utf8(all[i]);
        vstd::utf8::encode_utf8_decode_utf8(all[i]);
        assert(byte_lines(body)[i] == encode_utf8(all[i]));
    }
    assert(body_lines(body) =~= all);
}

/// A line that holds no JSON in a frame adds nothing.
pub proof fn lemma_ignored_line(before: Seq<Seq<char>>, line: Seq<char>, source: DeltaSource)
    requires
        line_value(line) is None,
    ensures
        deltas(before.push(line), source) == deltas(before, source),
        usage(before.push(line)) == usage(before),
{
    assert(before.push(line).drop_last() =~= before);
}

/// A line that does not begin with `data:`, white space aside, is no frame, and
/// neither is one without content.
pub proof fn lemma_no_frame(line: Seq<char>)
    ensures
        !occurs_at(trimmed(line), "data:"@, 0) ==> line_value(line) is None,
        trimmed(line) == "data:"@ ==> line_value(line) is None,
{
    if trimmed(line) == "data:"@ {
        assert(trimmed(line).skip("data:"@.len() as int) =~= Seq::empty());
    }
}

/// A last frame counts with and without its line break.
pub proof fn lemma_last_line_break(body: Seq<u8>, source: DeltaSource)
    ensures
        deltas(body_lines(body.push(line_break())), source) == deltas(body_lines(body), source),
        usage_of(body.push(line_break())) == usage_of(body),
{
    let more = body.push(line_break());
    let none = Seq::<char>::empty();
    lemma_body_lines_push(body, line_break());
    lemma_body_lines_push(more, 0);
    assert(line_text(Seq::<u8>::empty()) =~= none);
    assert(body_lines(more) =~= body_lines(body).push(none));
    reveal_strlit("data:");
    assert(trimmed(none) =~= none);
    lemma_no_frame(none);
    lemma_ignored_line(body_lines(body), none, source);
}

/// The last piece of a split text is free of the separator.
proof fn lemma_last_lacks(s: Seq<char>, c: char)
    ensures
        !split(s, c).last().contains(c),
    decreases s.len(),
{
    let sep = seq![c];
    lemma_find_from(s, sep, 0);
    match find(s, sep) {
        Some(i) => {
            lemma_split_some(s.skip(i + 1), c);
            lemma_last_lacks(s.skip(i + 1), c);
            assert(split(s, c).last() == split(s.skip(i + 1), c).last());
        },
        None => {
            if s.contains(c) {
                let k = s.index_of(c);
                assert(s.subrange(k, k + 1) =~= sep);
                assert(occurs_at(s, sep, k));
            }
        },
    }
}

/// Normalising a path goes piece by piece.
pub proof fn lemma_normalized_concat(a: Seq<char>, b: Seq<char>)
    ensures
        normalized(a + b) == normalized(a) + normalized(b),
    decreases b.len(),
{
    if b.len() == 0 {
        assert(a + b =~= a);
        assert(normalized(a) + normalized(b) =~= normalized(a));
    } else {
        lemma_normalized_concat(a, b.drop_last());
        assert((a + b).drop_last() =~= a + b.drop_last());
        assert((a + b).last() == b.last());
        assert(normalized(a + b) =~= normalized(a) + normalized(b));
    }
}

/// A key in brackets leads where the key behind a dot leads.
pub proof fn lemma_brackets(t: Tree, a: Seq<char>, key: Seq<char>, b: Seq<char>)
    ensures
        by_path(t, a + seq!['['] + key + seq![']'] + b) == by_path(t, a + seq!['.'] + key + b),
{
    let open = seq!['['];
    let close = seq![']'];
    let dot = seq!['.'];
    let none = Seq::<char>::empty();
    reveal_with_fuel(normalized, 2);
    assert(open.drop_last() =~= none);
    assert(close.drop_last() =~= none);
    assert(dot.drop_last() =~= none);
    assert(normalized(open) =~= dot);
    assert(normalized(close) =~= none);
    assert(normalized(dot) =~= dot);
    lemma_normalized_concat(a, open);
    lemma_normalized_concat(a + open, key);
    lemma_normalized_concat(a + open + key, close);
    lemma_normalized_concat(a + open + key + close, b);
    lemma_normalized_concat(a, dot);
    lemma_normalized_concat(a + dot, key);
    lemma_normalized_concat(a + dot + key, b);
    assert(normalized(a + open + key + close + b) =~= normalized(a + dot + key + b));
}

/// A frame at the end of a body adds its piece of the answer to the answer,
/// character for character, adds what it says about usage where nothing was said
/// before, and sends that piece. A frame without a piece adds nothing.
pub proof fn lemma_frame_appended(
    body: Seq<u8>,
    payload: Seq<char>,
    t: Tree,
    source: DeltaSource,
)
    requires
        body.len() == 0 || body.last() == 10,
        frame("data: "@ + payload) == Some(payload),
        !payload.contains('\n'),
        parsed_json(payload) == Ok::<Tree, Seq<char>>(t),
    ensures
        ({
            let more = body + encode_utf8("data: "@ + payload) + seq![10u8];
            let piece = source.delta(t);
            let events = chunks(deltas(ended_lines(body), source));
            &&& response_in(more, source) == (match piece {
                Some(s) => response_in(body, source) + s,
                None => response_in(body, source),
            })
            &&& chunks(deltas(ended_lines(more), source)) == (match piece {
                Some(s) => events.push(Event::Chunk(s)),
                None => events,
            })
            &&& usage_of(more) == (match usage_of(body) {
                Some(u) => Some(u),
                None => usage_in(t),
            })
        }),
{
    let line = "data: "@ + payload;
    let bytes = encode_utf8(line);
    let before = body_lines(body);
    let none = Seq::<u8>::empty();
    reveal_strlit("data: ");
    reveal_strlit("data:");
    assert(!line.contains('\n')) by {
        if line.contains('\n') {
            let k = line.index_of('\n');
            if k >= 6 {
                assert(payload[k - 6] == '\n');
            }
        }
    }
    lemma_encoded_free(line);
    lemma_byte_lines_some(body);
    lemma_byte_lines_more(body, bytes);
    if body.len() > 0 {
        assert(body.drop_last().push(10u8) =~= body);
        lemma_body_lines_push(body.drop_last(), 10);
    }
    assert(byte_lines(body).last() =~= none);
    assert(none + bytes =~= bytes);
    let with_line = body + bytes;
    let more = with_line + seq![10u8];
    assert(more =~= with_line.push(10u8));
    lemma_body_lines_push(with_line, 10);
    lemma_body_lines_push(more, 0);
    vstd::utf8::encode_utf8_valid_utf8(line);
    vstd::utf8::encode_utf8_decode_utf8(line);
    assert(line_text(bytes) == line);
    assert(ended_lines(more) =~= before.drop_last().push(line));
    assert(line_text(none) =~= Seq::<char>::empty());
    assert(before =~= before.drop_last().push(Seq::<char>::empty()));
    assert(trimmed(Seq::<char>::empty()) =~= Seq::<char>::empty());
    lemma_no_frame(Seq::<char>::empty());
    lemma_ignored_line(before.drop_last(), Seq::<char>::empty(), source);
    assert(body_lines(more) =~= ended_lines(more).push(Seq::<char>::empty()));
    lemma_ignored_line(ended_lines(more), Seq::<char>::empty(), source);
    assert(ended_lines(more).drop_last() =~= before.drop_last());
    let had = deltas(before.drop_last(), source);
    if let Some(s) = source.delta(t) {
        assert(had.push(s).drop_last() =~= had);
        assert(chunks(had.push(s)) =~= chunks(had).push(Event::Chunk(s)));
    }
}

/// A piece of a body that is one whole frame sends the frame's piece of the
/// answer as one chunk, character for character, and nothing where it has none.
pub proof fn lemma_frame_sent(body: Seq<u8>, payload: Seq<char>, t: Tree, source: DeltaSource)
    requires
        body.len() == 0 || body.last() == 10,
        frame("data: "@ + payload) == Some(payload),
        !payload.contains('\n'),
        parsed_json(payload) == Ok::<Tree, Seq<char>>(t),
    ensures
        step_events(body, encode_utf8("data: "@ + payload) + seq![10u8], source) == (
        match source.delta(t) {
            Some(s) => seq![Event::Chunk(s)],
            None => Seq::empty(),
        }),
{
    let piece = encode_utf8("data: "@ + payload) + seq![10u8];
    let done = chunks(deltas(ended_lines(body), source));
    lemma_frame_appended(body, payload, t, source);
    assert(body + piece =~= body + encode_utf8("data: "@ + payload) + seq![10u8]);
    match source.delta(t) {
        Some(s) => {
            assert(done.push(Event::Chunk(s)).skip(done.len() as int) =~= seq![Event::Chunk(s)]);
        },
        None => {
            assert(done.skip(done.len() as int) =~= Seq::empty());
        },
    }
}

/// A frame at the very end of a body counts though its line is not ended: its
/// piece of the answer is part of the answer, and the end of the body sends it.
pub proof fn lemma_last_frame(body: Seq<u8>, payload: Seq<char>, t: Tree, source: DeltaSource)
    requires
        body.len() == 0 || body.last() == 10,
        frame("data: "@ + payload) == Some(payload),
        !payload.contains('\n'),
        parsed_json(payload) == Ok::<Tree, Seq<char>>(t),
    ensures
        ({
            let all = body + encode_utf8("data: "@ + payload);
            &&& response_in(all, source) == (match source.delta(t) {
                Some(s) => response_in(body, source) + s,
                None => response_in(body, source),
            })
            &&& end_events(all, source) == (match source.delta(t) {
                Some(s) => seq![Event::Chunk(s)],
                None => Seq::empty(),
            })
        }),
{
    let line = "data: "@ + payload;
    let bytes = encode_utf8(line);
    let all = body + bytes;
    let more = all + seq![10u8];
    lemma_frame_appended(body, payload, t, source);
    assert(more =~= all.push(line_break()));
    lemma_last_line_break(all, source);
    lemma_body_lines_push(all, 10);
    assert(ended_lines(more) =~= body_lines(all));
    reveal_strlit("data: ");
    assert(!line.contains('\n')) by {
        if line.contains('\n') {
            let k = line.index_of('\n');
            if k >= 6 {
                assert(payload[k - 6] == '\n');
            }
        }
    }
    lemma_encoded_free(line);
    lemma_byte_lines_some(body);
    lemma_byte_lines_more(body, bytes);
    assert(ended_lines(all) =~= ended_lines(body));
    let done = chunks(deltas(ended_lines(body), source));
    match source.delta(t) {
        Some(s) => {
            assert(done.push(Event::Chunk(s)).skip(done.len() as int) =~= seq![Event::Chunk(s)]);
        },
        None => {
            assert(done.skip(done.len() as int) =~= Seq::empty());
        },
    }
}

/// What came of a stream is the answer in its body, put together from the pieces
/// in its lines, and what the first line to say something says about usage.
pub proof fn lemma_outcome(body: Seq<u8>, source: DeltaSource, outcome: StreamOutcome)
    requires
        outcome_of(body, source, outcome),
    ensures
        outcome.full_response@ == joined(deltas(body_lines(body), source)),
        optional_tree(outcome.usage) == usage(body_lines(body)),
{
}

/// A text without a line break is encoded without one.
proof fn lemma_encoded_free(text: Seq<char>)
    requires
        !text.contains('\n'),
    ensures
        !encode_utf8(text).contains(line_break()),
    decreases text.len(),
{
    if text.len() > 0 {
        let init = text.drop_last();
        let c = text.last();
        assert(text =~= init.push(c));
        assert(text[text.len() - 1] == c);
        assert forall|i: int| 0 <= i < init.len() implies init[i] != '\n' by {
            assert(text[i] == init[i]);
        }
        lemma_encoded_free(init);
        lemma_encode_push(init, c);
        lemma_encoded_line_break(c);
        let a = encode_utf8(init);
        let b = encode_scalar(c as u32);
        if encode_utf8(text).contains(line_break()) {
            let k = encode_utf8(text).index_of(line_break());
            if k < a.len() {
                assert(a[k] == line_break());
            } else {
                assert(b[k - a.len()] == line_break());
            }
        }
    }
}

} // verus!
