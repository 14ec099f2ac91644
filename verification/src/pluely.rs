//! The hosted path: the service's configuration, the request it asks for, and
//! what becomes of its errors.

use vstd::prelude::*;

use crate::call::{
    authorization, content_type, get_text, header, make_authorization, make_content_type, pairs,
    read_json, readable, text_at, Call, HttpCall,
};
use crate::commands::StreamChatRequest;
use crate::json::{
    empty_object, entry, entry_trees, lemma_array_view, lemma_object_view, lemma_with_entry_get,
    optional_tree, trees, well_formed, Json, Tree,
};
use crate::llm::{Failure, LlmError};
use crate::messages::{is_image, turn, HistoryMessage};
use crate::provider::Method;
use crate::schema::{files, AttachedFile, File};
use crate::stream::StreamOutcome;
use crate::text::{
    has_text, mentions, optional, starts_with, trim, trim_end_of, trimmed, trimmed_end_of, views,
};

verus! {

/// A model that the service offers.
#[derive(Debug)]
pub struct Model {
    pub provider: String,
    pub name: String,
    pub id: String,
    pub model: String,
    pub description: String,
    pub modality: String,
    pub is_available: bool,
}

/// What the service says about how to send a request.
#[derive(Debug)]
pub struct ApiResponseConfig {
    pub url: String,
    pub user_token: String,
    pub model: String,
    pub body: String,
    pub customer_id: Option<i64>,
    pub customer_email: Option<String>,
    pub customer_name: Option<String>,
    pub user_audio: Option<UserAudioConfig>,
    pub errors: Option<Vec<ApiConfigError>>,
}

/// A rule for what to show for an error: `error` where the error holds
/// `includes`.
#[derive(Debug)]
pub struct ApiConfigError {
    pub includes: String,
    pub error: String,
}

/// A further field of a transcription request.
#[derive(Debug)]
pub struct UserAudioHeader {
    pub key: String,
    pub value: String,
}

/// Where and how to have audio transcribed.
#[derive(Debug)]
pub struct UserAudioConfig {
    pub url: String,
    pub fallback_url: Option<String>,
    pub model: String,
    pub fallback_model: Option<String>,
    pub user_token: String,
    pub fallback_user_token: Option<String>,
    pub headers: Option<Vec<UserAudioHeader>>,
}

/// The error of the first rule whose `includes`, not empty, stands in `source`.
pub open spec fn rule_for(rules: Seq<ApiConfigError>, source: Seq<char>) -> Option<Seq<char>>
    decreases rules.len(),
{
    if rules.len() == 0 {
        None
    } else if rules[0].includes@.len() > 0 && mentions(source, rules[0].includes@) {
        Some(rules[0].error@)
    } else {
        rule_for(rules.skip(1), source)
    }
}

/// The error of the rule for the first source that has one.
pub open spec fn rule_among(rules: Seq<ApiConfigError>, sources: Seq<Seq<char>>) -> Option<
    Seq<char>,
>
    decreases sources.len(),
{
    if sources.len() == 0 {
        None
    } else if rule_for(rules, sources[0]) is Some {
        rule_for(rules, sources[0])
    } else {
        rule_among(rules, sources.skip(1))
    }
}

/// The error of the first rule whose `includes` is blank.
pub open spec fn default_rule(rules: Seq<ApiConfigError>) -> Option<Seq<char>>
    decreases rules.len(),
{
    if rules.len() == 0 {
        None
    } else if trimmed(rules[0].includes@).len() == 0 {
        Some(rules[0].error@)
    } else {
        default_rule(rules.skip(1))
    }
}

/// What is shown where there is no rule at all.
pub open spec fn last_resort() -> Seq<char> {
    "Something went wrong. Please try switching to a different model or contact support."@
}

/// What to show for an error: by the rule for one of its sources, else by the
/// default rule, else by the first rule, else a general text.
pub open spec fn error_message(rules: Seq<ApiConfigError>, sources: Seq<Seq<char>>) -> Seq<char> {
    match rule_among(rules, sources) {
        Some(error) => error,
        None => match default_rule(rules) {
            Some(error) => error,
            None => if rules.len() > 0 {
                rules[0].error@
            } else {
                last_resort()
            },
        },
    }
}

fn find_rule(rules: &[ApiConfigError], source: &str) -> (r: Option<usize>)
    ensures
        match r {
            Some(i) => i < rules@.len() && rule_for(rules@, source@) == Some(rules@[i as int].error@),
            None => rule_for(rules@, source@) is None,
        },
{
    let mut i: usize = 0;
    assert(rules@.skip(0) == rules@);
    while i < rules.len()
        invariant
            i <= rules@.len(),
            rule_for(rules@, source@) == rule_for(rules@.skip(i as int), source@),
        decreases rules@.len() - i,
    {
        assert(rules@.skip(i as int)[0] == rules@[i as int]);
        let includes = rules[i].includes.as_str();
        if !includes.is_empty() && has_text(source, includes) {
            return Some(i);
        }
        assert(rules@.skip(i as int).skip(1) == rules@.skip(i + 1));
        i = i + 1;
    }
    None
}

/// What to show for an error of the service, by its own rules.
pub fn map_api_error_message(error_rules: &[ApiConfigError], sources: &[String]) -> (r: String)
    ensures
        r@ == error_message(error_rules@, views(sources@)),
{
    let ghost all = views(sources@);
    let mut i: usize = 0;
    assert(all.skip(0) == all);
    while i < sources.len()
        invariant
            i <= sources@.len(),
            all == views(sources@),
            rule_among(error_rules@, all) == rule_among(error_rules@, all.skip(i as int)),
        decreases sources@.len() - i,
    {
        assert(all.skip(i as int)[0] == sources@[i as int]@);
        match find_rule(error_rules, sources[i].as_str()) {
            Some(k) => {
                return error_rules[k].error.clone();
            },
            None => {},
        }
        assert(all.skip(i as int).skip(1) == all.skip(i + 1));
        i = i + 1;
    }
    let mut k: usize = 0;
    assert(error_rules@.skip(0) == error_rules@);
    while k < error_rules.len()
        invariant
            k <= error_rules@.len(),
            rule_among(error_rules@, all) is None,
            all == views(sources@),
            default_rule(error_rules@) == default_rule(error_rules@.skip(k as int)),
        decreases error_rules@.len() - k,
    {
        assert(error_rules@.skip(k as int)[0] == error_rules@[k as int]);
        if trim(error_rules[k].includes.as_str()).as_str().is_empty() {
            return error_rules[k].error.clone();
        }
        assert(error_rules@.skip(k as int).skip(1) == error_rules@.skip(k + 1));
        k = k + 1;
    }
    if error_rules.len() > 0 {
        error_rules[0].error.clone()
    } else {
        "Something went wrong. Please try switching to a different model or contact support.".to_owned()
    }
}

/// A text as a part of a turn's content.
pub open spec fn text_part(text: Seq<char>) -> Tree {
    empty_object().with("type"@, Tree::Text("text"@)).with("text"@, Tree::Text(text))
}

/// An image as a part of a turn's content.
pub open spec fn image_part(f: File) -> Tree {
    let url = "data:"@ + f.mime + ";base64,"@ + f.base64;
    empty_object().with("type"@, Tree::Text("image_url"@)).with(
        "image_url"@,
        empty_object().with("url"@, Tree::Text(url)),
    )
}

/// The parts of the user's turn: the text, then the images.
pub open spec fn user_parts(message: Seq<char>, files: Seq<File>) -> Seq<Tree>
    decreases files.len(),
{
    if files.len() == 0 {
        seq![text_part(message)]
    } else {
        let before = user_parts(message, files.drop_last());
        if is_image(files.last()) {
            before.push(image_part(files.last()))
        } else {
            before
        }
    }
}

/// A turn whose content is made of parts.
pub open spec fn parts_turn(role: Seq<char>, parts: Seq<Tree>) -> Tree {
    empty_object().with("role"@, Tree::Text(role)).with("content"@, Tree::Array(parts))
}

/// The turns of the conversation so far.
pub open spec fn past_turns(history: Seq<HistoryMessage>) -> Seq<Tree> {
    Seq::new(
        history.len(),
        |i: int| parts_turn(history[i].role.name(), seq![text_part(history[i].content@)]),
    )
}

/// The turn of the system prompt, unless that is empty.
pub open spec fn system_turns(prompt: Option<String>) -> Seq<Tree> {
    match prompt {
        Some(s) if s@.len() > 0 => seq![turn("system"@, s@)],
        _ => Seq::empty(),
    }
}

/// The messages of a hosted chat.
pub open spec fn chat_messages(request: StreamChatRequest) -> Seq<Tree> {
    system_turns(request.system_prompt) + past_turns(request.history@) + seq![
        parts_turn("user"@, user_parts(request.message@, files(request.attached_files@))),
    ]
}

/// An object with further entries put in, one after the other.
pub open spec fn overlaid(t: Tree, entries: Seq<(Seq<char>, Tree)>) -> Tree
    decreases entries.len(),
{
    if entries.len() == 0 {
        t
    } else {
        overlaid(t, entries.drop_last()).with(entries.last().0, entries.last().1)
    }
}

/// The body of a hosted chat: model, messages and the wish for a stream, and
/// what the service wants put in, if that is a JSON object.
pub open spec fn chat_body(model: Seq<char>, request: StreamChatRequest, extra: Option<Tree>) -> Tree {
    let body = empty_object().with("model"@, Tree::Text(model)).with(
        "messages"@,
        Tree::Array(chat_messages(request)),
    ).with("stream"@, Tree::Bool(true));
    match extra {
        Some(Tree::Object(entries)) => overlaid(body, entries),
        _ => body,
    }
}

fn make_text_part(text: &str) -> (r: Json)
    ensures
        r@ == text_part(text@),
        r@.wf(),
{
    Json::object().with("type", Json::text("text")).with("text", Json::text(text))
}

fn make_image_part(f: &AttachedFile) -> (r: Json)
    ensures
        r@ == image_part(f@),
        r@.wf(),
{
    let url = "data:".to_owned().concat(f.mime.as_str()).concat(";base64,").concat(
        f.base64.as_str(),
    );
    Json::object().with("type", Json::text("image_url")).with(
        "image_url",
        Json::object().with("url", Json::text(url.as_str())),
    )
}

spec fn all_wf(items: Seq<Tree>) -> bool {
    forall|i: int| 0 <= i < items.len() ==> (#[trigger] items[i]).wf()
}

fn make_parts_turn(role: &str, parts: Vec<Json>) -> (r: Json)
    requires
        all_wf(trees(parts@)),
    ensures
        r@ == parts_turn(role@, trees(parts@)),
        r@.wf(),
{
    broadcast use lemma_array_view;
    let content = Json::Array(parts);
    assert(content@->Array_0 == trees(parts@));
    Json::object().with("role", Json::text(role)).with("content", content)
}

proof fn lemma_trees_push(items: Seq<Json>, item: Json)
    ensures
        trees(items.push(item)) == trees(items).push(item@),
{
    assert(trees(items.push(item)) =~= trees(items).push(item@));
}

fn make_user_parts(message: &str, attached: &Vec<AttachedFile>) -> (r: Vec<Json>)
    ensures
        trees(r@) == user_parts(message@, files(attached@)),
        all_wf(trees(r@)),
{
    let ghost all = files(attached@);
    let first = make_text_part(message);
    let mut out: Vec<Json> = vec![first];
    assert(trees(out@) =~= user_parts(message@, all.take(0)));
    let mut k: usize = 0;
    while k < attached.len()
        invariant
            all == files(attached@),
            k <= attached@.len(),
            trees(out@) == user_parts(message@, all.take(k as int)),
            all_wf(trees(out@)),
        decreases attached@.len() - k,
    {
        let ghost now = all.take(k + 1);
        assert(now.drop_last() =~= all.take(k as int));
        assert(now.last() == attached@[k as int]@);
        if starts_with(attached[k].mime.as_str(), "image/") {
            let part = make_image_part(&attached[k]);
            proof {
                lemma_trees_push(out@, part);
            }
            out.push(part);
        }
        k = k + 1;
    }
    assert(all.take(k as int) =~= all);
    out
}

fn make_chat_messages(request: &StreamChatRequest) -> (r: Vec<Json>)
    ensures
        trees(r@) == chat_messages(*request),
        all_wf(trees(r@)),
{
    let mut out: Vec<Json> = Vec::new();
    if let Some(prompt) = &request.system_prompt {
        if !prompt.as_str().is_empty() {
            let system = Json::object().with("role", Json::text("system")).with(
                "content",
                Json::text(prompt.as_str()),
            );
            out.push(system);
        }
    }
    let ghost first = system_turns(request.system_prompt);
    let ghost past = past_turns(request.history@);
    assert(trees(out@) =~= first);
    assert(first + past.take(0) =~= first);
    let mut k: usize = 0;
    while k < request.history.len()
        invariant
            past == past_turns(request.history@),
            k <= request.history@.len(),
            trees(out@) == first + past.take(k as int),
            all_wf(trees(out@)),
        decreases request.history@.len() - k,
    {
        let h = &request.history[k];
        let part = make_text_part(h.content.as_str());
        let parts: Vec<Json> = vec![part];
        assert(trees(parts@) =~= seq![text_part(h.content@)]);
        let made = make_parts_turn(h.role.as_str(), parts);
        assert(made@ == past[k as int]);
        proof {
            lemma_trees_push(out@, made);
        }
        out.push(made);
        assert(first + past.take(k + 1) =~= (first + past.take(k as int)).push(made@));
        k = k + 1;
    }
    assert(past.take(k as int) =~= past);
    let parts = make_user_parts(request.message.as_str(), &request.attached_files);
    let user = make_parts_turn("user", parts);
    proof {
        lemma_trees_push(out@, user);
    }
    out.push(user);
    assert(trees(out@) =~= chat_messages(*request));
    out
}

/// The body of a hosted chat, given what reading the service's extra part gave.
pub fn build_chat_body(model: &str, request: &StreamChatRequest, extra: &Option<Json>) -> (r: Json)
    requires
        extra matches Some(v) ==> v@.wf(),
    ensures
        r@ == chat_body(model@, *request, optional_tree(*extra)),
        r@.wf(),
{
    broadcast use {lemma_array_view, lemma_object_view};
    let messages = make_chat_messages(request);
    let turns = Json::Array(messages);
    assert(turns@->Array_0 == trees(messages@));
    let mut body = Json::object().with("model", Json::text(model)).with("messages", turns).with(
        "stream",
        Json::Bool(true),
    );
    let ghost base = body@;
    if let Some(Json::Object(entries)) = extra {
        let ghost all = entry_trees(entries@);
        let ghost whole = extra->0@;
        assert(whole->Object_0 == all);
        let mut k: usize = 0;
        assert(all.take(0) =~= Seq::empty());
        while k < entries.len()
            invariant
                all == entry_trees(entries@),
                whole == Tree::Object(all),
                whole.wf(),
                k <= entries@.len(),
                body@ == overlaid(base, all.take(k as int)),
                body@.wf(),
            decreases entries@.len() - k,
        {
            let ghost now = all.take(k + 1);
            assert(now.drop_last() =~= all.take(k as int));
            assert(now.last() == all[k as int]);
            assert(whole->Object_0[k as int].1.wf());
            body = body.with(entries[k].0.as_str(), entries[k].1.duplicate());
            k = k + 1;
        }
        assert(all.take(k as int) =~= all);
    }
    body
}

/// What the service wants put into the body of a chat.
pub open spec fn extra_body(text: Seq<char>) -> Option<Tree> {
    if text.len() == 0 {
        None
    } else {
        readable(text)
    }
}

/// The request of a hosted chat, as the service's configuration asks for it.
pub fn chat_call(config: &ApiResponseConfig, request: &StreamChatRequest) -> (r: HttpCall)
    ensures
        r@ == (Call {
            method: Method::Post,
            url: config.url@,
            headers: seq![content_type(), authorization(config.user_token@)],
            body: Some(chat_body(config.model@, *request, extra_body(config.body@))),
        }),
        well_formed(r.body),
{
    let extra = if config.body.as_str().is_empty() {
        None
    } else {
        read_json(config.body.as_str())
    };
    let body = build_chat_body(config.model.as_str(), request, &extra);
    let headers: Vec<(String, String)> = vec![
        make_content_type(),
        make_authorization(config.user_token.as_str()),
    ];
    assert(pairs(headers@) =~= seq![content_type(), authorization(config.user_token@)]);
    HttpCall { method: Method::Post, url: config.url.clone(), headers, body: Some(body) }
}

/// What the service wants put in wins over what the chat has; every other key
/// keeps its value.
pub proof fn lemma_overlaid_get(t: Tree, entries: Seq<(Seq<char>, Tree)>, key: Seq<char>)
    requires
        t is Object,
        Tree::Object(entries).wf(),
    ensures
        overlaid(t, entries) is Object,
        overlaid(t, entries).get(key) == (match Tree::Object(entries).get(key) {
            Some(v) => Some(v),
            None => t.get(key),
        }),
    decreases entries.len(),
{
    let whole = Tree::Object(entries);
    assert(whole->Object_0 == entries);
    if entries.len() > 0 {
        let init = entries.drop_last();
        let last = entries.last();
        let fewer = Tree::Object(init);
        assert(fewer->Object_0 == init);
        assert(fewer.wf()) by {
            assert forall|i: int, j: int| 0 <= i < j < init.len() implies crate::json::precedes(
                #[trigger] init[i].0,
                #[trigger] init[j].0,
            ) by {
                assert(init[i] == entries[i] && init[j] == entries[j]);
            }
            assert forall|i: int| 0 <= i < init.len() implies (#[trigger] init[i]).1.wf() by {
                assert(init[i] == entries[i]);
            }
        }
        lemma_overlaid_get(t, init, key);
        lemma_with_entry_get(overlaid(t, init)->Object_0, last.0, last.1, key);
        lemma_entry_last(entries, key);
    }
}

/// Looking a key up among entries with distinct keys may begin at the end.
proof fn lemma_entry_last(entries: Seq<(Seq<char>, Tree)>, key: Seq<char>)
    requires
        entries.len() > 0,
        crate::json::keys_ordered(entries),
    ensures
        entry(entries, key) == (if entries.last().0 == key {
            Some(entries.last().1)
        } else {
            entry(entries.drop_last(), key)
        }),
    decreases entries.len(),
{
    reveal_with_fuel(entry, 2);
    if entries.len() > 1 {
        let rest = entries.skip(1);
        assert forall|i: int, j: int| 0 <= i < j < rest.len() implies crate::json::precedes(
            #[trigger] rest[i].0,
            #[trigger] rest[j].0,
        ) by {
            assert(rest[i] == entries[i + 1] && rest[j] == entries[j + 1]);
        }
        lemma_entry_last(rest, key);
        assert(rest.last() == entries.last());
        assert(rest.drop_last() =~= entries.drop_last().skip(1));
        crate::json::lemma_precedes_irreflexive(key);
        assert(crate::json::precedes(entries[0].0, entries[entries.len() - 1].0));
    }
}

/// A header where there is a value for it.
pub open spec fn optional_header(name: Seq<char>, value: Option<Seq<char>>) -> Seq<
    (Seq<char>, Seq<char>),
> {
    match value {
        Some(v) => seq![(name, v)],
        None => Seq::empty(),
    }
}

/// The call for the service's configuration, for a provider and a model where
/// one is selected.
pub fn config_call(
    endpoint: &str,
    key: &str,
    machine_id: &str,
    provider: &Option<String>,
    model: &Option<String>,
) -> (r: HttpCall)
    ensures
        r@ == (Call {
            method: Method::Get,
            url: endpoint@ + "/api/response"@,
            headers: seq![content_type(), authorization(key@), ("machine_id"@, machine_id@)]
                + optional_header("provider"@, optional(*provider)) + optional_header(
                "model"@,
                optional(*model),
            ),
            body: None,
        }),
{
    let mut headers: Vec<(String, String)> = vec![
        make_content_type(),
        make_authorization(key),
        header("machine_id", machine_id),
    ];
    if let Some(p) = provider {
        headers.push(header("provider", p.as_str()));
    }
    if let Some(m) = model {
        headers.push(header("model", m.as_str()));
    }
    assert(pairs(headers@) =~= seq![
        content_type(),
        authorization(key@),
        ("machine_id"@, machine_id@),
    ] + optional_header("provider"@, optional(*provider)) + optional_header(
        "model"@,
        optional(*model),
    ));
    HttpCall {
        method: Method::Get,
        url: endpoint.to_owned().concat("/api/response"),
        headers,
        body: None,
    }
}

/// The error of a refused call for the configuration.
pub fn config_refused(status: &str, body: &str) -> (r: LlmError)
    ensures
        r@ == Failure::PluelyConfig(
            crate::call::refusal(status@, body@, readable(body@), "error"@, "message"@),
        ),
{
    LlmError::PluelyConfig(crate::call::server_error(status, body))
}

/// Provider and model of the selected model.
pub fn selected_names(selected: &Option<Model>) -> (r: (Option<String>, Option<String>))
    ensures
        match selected {
            Some(m) => optional(r.0) == Some(m.provider@) && optional(r.1) == Some(m.model@),
            None => r.0 is None && r.1 is None,
        },
{
    match selected {
        Some(m) => (Some(m.provider.clone()), Some(m.model.clone())),
        None => (None, None),
    }
}

/// The first text there is, or an empty one.
pub open spec fn either(a: Option<Seq<char>>, b: Option<Seq<char>>) -> Seq<char> {
    match a {
        Some(s) => s,
        None => match b {
            Some(s) => s,
            None => Seq::empty(),
        },
    }
}

/// What is reported of an error.
pub open spec fn error_payload(
    machine_id: Seq<char>,
    message: Seq<char>,
    app_version: Seq<char>,
    endpoint_path: Seq<char>,
    model: Seq<char>,
    provider: Seq<char>,
) -> Tree {
    empty_object().with("machine_id"@, Tree::Text(machine_id)).with(
        "error_message"@,
        Tree::Text(message),
    ).with("app_version"@, Tree::Text(app_version)).with(
        "endpoint"@,
        Tree::Text(endpoint_path),
    ).with("model"@, Tree::Text(model)).with("provider"@, Tree::Text(provider))
}

/// What went wrong, where, with which model and provider.
#[derive(Debug)]
pub struct ApiError {
    pub message: String,
    pub endpoint_path: String,
    pub model: Option<String>,
    pub provider: Option<String>,
}

/// The error of a chat, for a report.
pub fn chat_error(message: &str, model: &Option<String>, provider: &Option<String>) -> (r: ApiError)
    ensures
        r.message@ == message@,
        r.endpoint_path@ == "/api/chat"@,
        r.model == *model,
        r.provider == *provider,
{
    make_error(message, "/api/chat", model, provider)
}

/// The error of a transcription, for a report.
pub fn transcription_error(
    message: &str,
    model: &Option<String>,
    provider: &Option<String>,
) -> (r: ApiError)
    ensures
        r.message@ == message@,
        r.endpoint_path@ == "/api/transcribe"@,
        r.model == *model,
        r.provider == *provider,
{
    make_error(message, "/api/transcribe", model, provider)
}

fn make_error(
    message: &str,
    endpoint_path: &str,
    model: &Option<String>,
    provider: &Option<String>,
) -> (r: ApiError)
    ensures
        r.message@ == message@,
        r.endpoint_path@ == endpoint_path@,
        r.model == *model,
        r.provider == *provider,
{
    ApiError {
        message: message.to_owned(),
        endpoint_path: endpoint_path.to_owned(),
        model: model.clone(),
        provider: provider.clone(),
    }
}

/// The model of a selected model, if there is one.
pub open spec fn stored_model(stored: Option<Model>) -> Option<Seq<char>> {
    match stored {
        Some(m) => Some(m.model@),
        None => None,
    }
}

/// The provider of a selected model, if there is one.
pub open spec fn stored_provider(stored: Option<Model>) -> Option<Seq<char>> {
    match stored {
        Some(m) => Some(m.provider@),
        None => None,
    }
}

fn first_of(a: &Option<String>, b: Option<String>) -> (r: String)
    ensures
        r@ == either(optional(*a), optional(b)),
{
    match a {
        Some(s) => s.clone(),
        None => match b {
            Some(s) => s,
            None => String::new(),
        },
    }
}

/// The headers of a report.
pub open spec fn report_headers(key: Seq<char>) -> Seq<(Seq<char>, Seq<char>)> {
    seq![authorization(key), content_type()]
}

fn make_report_headers(key: &str) -> (r: Vec<(String, String)>)
    ensures
        pairs(r@) == report_headers(key@),
{
    let r: Vec<(String, String)> = vec![make_authorization(key), make_content_type()];
    assert(pairs(r@) =~= report_headers(key@));
    r
}

/// The call that reports an error; none without the machine's identifier. Model
/// and provider are those of the error, or else those selected, or empty.
pub fn error_report(
    endpoint: &str,
    key: &str,
    machine_id: &str,
    app_version: &str,
    error: &ApiError,
    stored: &Option<Model>,
) -> (r: Option<HttpCall>)
    ensures
        match r {
            Some(call) => machine_id@.len() > 0 && call@ == (Call {
                method: Method::Post,
                url: trimmed_end_of(endpoint@, '/') + "/api/error"@,
                headers: report_headers(key@),
                body: Some(
                    error_payload(
                        machine_id@,
                        error.message@,
                        app_version@,
                        error.endpoint_path@,
                        either(optional(error.model), stored_model(*stored)),
                        either(optional(error.provider), stored_provider(*stored)),
                    ),
                ),
            }) && well_formed(call.body),
            None => machine_id@.len() == 0,
        },
{
    if machine_id.is_empty() {
        return None;
    }
    let (stored_provider, stored_model) = selected_names(stored);
    let model = first_of(&error.model, stored_model);
    let provider = first_of(&error.provider, stored_provider);
    let payload = Json::object().with("machine_id", Json::text(machine_id)).with(
        "error_message",
        Json::text(error.message.as_str()),
    ).with("app_version", Json::text(app_version)).with(
        "endpoint",
        Json::text(error.endpoint_path.as_str()),
    ).with("model", Json::text(model.as_str())).with("provider", Json::text(provider.as_str()));
    Some(
        HttpCall {
            method: Method::Post,
            url: trim_end_of(endpoint, '/').concat("/api/error"),
            headers: make_report_headers(key),
            body: Some(payload),
        },
    )
}

/// What is reported of a chat that gave an answer.
pub open spec fn activity_payload(
    machine_id: Seq<char>,
    app_version: Seq<char>,
    ai_model: Seq<char>,
    usage: Option<Tree>,
) -> Tree {
    let payload = empty_object().with("machine_id"@, Tree::Text(machine_id)).with(
        "app_version"@,
        Tree::Text(app_version),
    ).with("ai_model"@, Tree::Text(ai_model));
    match usage {
        Some(u) => payload.with("usage"@, u),
        None => payload,
    }
}

/// The call that reports a chat; none where the chat gave no answer or without
/// the machine's identifier. The model is the selected one, or else the one of
/// the configuration.
pub fn activity_report(
    endpoint: &str,
    key: &str,
    machine_id: &str,
    app_version: &str,
    outcome: &StreamOutcome,
    stored: &Option<Model>,
    configured_model: &str,
) -> (r: Option<HttpCall>)
    ensures
        match r {
            Some(call) => machine_id@.len() > 0 && outcome.full_response@.len() > 0 && call@ == (
            Call {
                method: Method::Post,
                url: trimmed_end_of(endpoint@, '/') + "/api/activity"@,
                headers: report_headers(key@),
                body: Some(
                    activity_payload(
                        machine_id@,
                        app_version@,
                        match stored_model(*stored) {
                            Some(m) => m,
                            None => configured_model@,
                        },
                        optional_tree(outcome.usage),
                    ),
                ),
            }) && (well_formed(outcome.usage) ==> well_formed(call.body)),
            None => machine_id@.len() == 0 || outcome.full_response@.len() == 0,
        },
{
    if machine_id.is_empty() || outcome.full_response.as_str().is_empty() {
        return None;
    }
    let model = match stored {
        Some(m) => m.model.clone(),
        None => configured_model.to_owned(),
    };
    let payload = Json::object().with("machine_id", Json::text(machine_id)).with(
        "app_version",
        Json::text(app_version),
    ).with("ai_model", Json::text(model.as_str()));
    let payload = match &outcome.usage {
        Some(u) => payload.with("usage", u.duplicate()),
        None => payload,
    };
    Some(
        HttpCall {
            method: Method::Post,
            url: trim_end_of(endpoint, '/').concat("/api/activity"),
            headers: make_report_headers(key),
            body: Some(payload),
        },
    )
}

/// A failed chat: what the user sees, and what is reported, if anything.
#[derive(Debug)]
pub struct ChatFailure {
    pub error: LlmError,
    pub report: Option<String>,
}

/// The rules of a configuration.
pub open spec fn rules_of(errors: Option<Vec<ApiConfigError>>) -> Seq<ApiConfigError> {
    match errors {
        Some(rules) => rules@,
        None => Seq::empty(),
    }
}

fn map_error(errors: &Option<Vec<ApiConfigError>>, sources: &Vec<String>) -> (r: LlmError)
    ensures
        r@ == Failure::PluelyConfig(error_message(rules_of(*errors), views(sources@))),
{
    let message = match errors {
        Some(rules) => map_api_error_message(rules.as_slice(), sources.as_slice()),
        None => {
            let none: Vec<ApiConfigError> = Vec::new();
            assert(none@ =~= Seq::empty());
            map_api_error_message(none.as_slice(), sources.as_slice())
        },
    };
    LlmError::PluelyConfig(message)
}

/// A chat whose connection failed, when the request was sent or later: shown by
/// the rules, and reported as it was. Other failures are shown as they are and
/// not reported.
pub fn chat_failed(errors: &Option<Vec<ApiConfigError>>, failure: LlmError) -> (r: ChatFailure)
    ensures
        match failure {
            LlmError::Reqwest(message) => r.error@ == Failure::PluelyConfig(
                error_message(rules_of(*errors), seq![message@]),
            ) && optional(r.report) == Some(message@),
            _ => r.error == failure && r.report is None,
        },
{
    match failure {
        LlmError::Reqwest(message) => {
            let sources: Vec<String> = vec![message.clone()];
            assert(views(sources@) =~= seq![message@]);
            ChatFailure { error: map_error(errors, &sources), report: Some(message) }
        },
        other => ChatFailure { error: other, report: None },
    }
}

/// What a refused chat may be explained by: its body and status, and the texts
/// under `error` and `message` in the body.
pub open spec fn error_sources(status: Seq<char>, body: Seq<char>, read: Option<Tree>) -> Seq<
    Seq<char>,
> {
    let details = match read {
        Some(t) => details_of(text_at(t, "error"@)) + details_of(text_at(t, "message"@)),
        None => Seq::empty(),
    };
    seq![body, status] + details
}

/// A detail, if there is one.
pub open spec fn details_of(detail: Option<Seq<char>>) -> Seq<Seq<char>> {
    match detail {
        Some(s) => seq![s],
        None => Seq::empty(),
    }
}

/// A chat that the provider refused, given what reading the body gave: shown by
/// the rules, and reported with status and body.
pub fn refused_with(
    errors: &Option<Vec<ApiConfigError>>,
    status: &str,
    body: &str,
    read: &Option<Json>,
) -> (r: ChatFailure)
    ensures
        r.error@ == Failure::PluelyConfig(
            error_message(
                rules_of(*errors),
                error_sources(status@, body@, optional_tree(*read)),
            ),
        ),
        optional(r.report) == Some(status@ + ": "@ + body@),
{
    let mut sources: Vec<String> = vec![body.to_owned(), status.to_owned()];
    if let Some(value) = read {
        if let Some(s) = get_text(value, "error") {
            sources.push(s);
        }
        if let Some(s) = get_text(value, "message") {
            sources.push(s);
        }
    }
    assert(views(sources@) =~= error_sources(status@, body@, optional_tree(*read)));
    let report = status.to_owned().concat(": ").concat(body);
    ChatFailure { error: map_error(errors, &sources), report: Some(report) }
}

/// A chat that the provider refused.
pub fn chat_refused(errors: &Option<Vec<ApiConfigError>>, status: &str, body: &str) -> (r:
    ChatFailure)
    ensures
        r.error@ == Failure::PluelyConfig(
            error_message(rules_of(*errors), error_sources(status@, body@, readable(body@))),
        ),
        optional(r.report) == Some(status@ + ": "@ + body@),
{
    let read = read_json(body);
    refused_with(errors, status, body, &read)
}

} // verus!
