//! Custom providers: from a chat request, the provider's curl template and its
//! variables to the HTTP request, and from the response to the answer.

use vstd::prelude::*;

use crate::call::{content_type, make_content_type, pairs};
use crate::commands::StreamChatRequest;
use crate::curl::{curl_of, parse_curl, Curl, ParsedCurl};
use crate::json::{
    empty_object, entry_trees, lemma_object_view, lemma_with_entry_get, optional_tree,
    well_formed, Json, Tree,
};
use crate::llm::{Event, Failure, LlmError, StreamEvent};
use crate::messages::{build_messages, messages_intact, with_messages};
use crate::schema::files;
use crate::stream::{by_path, extract_by_path};
use crate::string_map::{entries_map, keys_distinct, lemma_entries_map, texts, StringMap};
use crate::template::{
    extract_variables, lemma_substituted_shape, substitute_string, substitute_value, substituted,
    substituted_tree, variables,
};
use crate::text::{optional, same_text, to_upper, trim, trimmed, uppered, views};

verus! {

/// A variable that the user set has this name, in upper case.
pub open spec fn named(user: Map<Seq<char>, Seq<char>>, name: Seq<char>) -> bool {
    exists|key: Seq<char>| #[trigger] user.contains_key(key) && uppered(key) == name
}

/// `value` is the value of a variable that the user set under this name, in
/// upper case.
pub open spec fn user_value(
    user: Map<Seq<char>, Seq<char>>,
    name: Seq<char>,
    value: Seq<char>,
) -> bool {
    exists|key: Seq<char>| #[trigger]
        user.contains_key(key) && uppered(key) == name && user[key] == value
}

/// The variables of a request: the system prompt under its own name, the
/// secrets, and under names that neither has, what the user set. Where the user
/// set a name in several spellings, one of their values counts.
pub open spec fn merged(
    vars: Map<Seq<char>, Seq<char>>,
    user: Map<Seq<char>, Seq<char>>,
    secrets: Map<Seq<char>, Seq<char>>,
    system_prompt: Seq<char>,
) -> bool {
    forall|name: Seq<char>|
        {
            &&& #[trigger] vars.contains_key(name) <==> name == "SYSTEM_PROMPT"@
                || secrets.contains_key(name) || named(user, name)
            &&& vars.contains_key(name) ==> if name == "SYSTEM_PROMPT"@ {
                vars[name] == system_prompt
            } else if secrets.contains_key(name) {
                vars[name] == secrets[name]
            } else {
                user_value(user, name, vars[name])
            }
        }
}

/// The user's variables, their names in upper case.
fn upper_variables(user: &StringMap<String>) -> (r: StringMap<String>)
    ensures
        forall|name: Seq<char>|
            {
                &&& #[trigger] texts(r@).contains_key(name) <==> named(texts(user@), name)
                &&& texts(r@).contains_key(name) ==> user_value(
                    texts(user@),
                    name,
                    texts(r@)[name],
                )
            },
{
    let entries = user.entries();
    let ghost all = entries@;
    let ghost given = texts(user@);
    let mut r: StringMap<String> = StringMap::new();
    let mut i: usize = 0;
    while i < entries.len()
        invariant
            all == entries@,
            i <= entries@.len(),
            given == texts(user@),
            entries_map(all) == user@,
            keys_distinct(all),
            forall|name: Seq<char>|
                {
                    &&& #[trigger] texts(r@).contains_key(name) <==> exists|j: int|
                        0 <= j < i && uppered((#[trigger] all[j]).0@) == name
                    &&& texts(r@).contains_key(name) ==> user_value(given, name, texts(r@)[name])
                },
        decreases entries@.len() - i,
    {
        let ghost was = texts(r@);
        let ghost key = all[i as int].0@;
        proof {
            lemma_entries_map(all, key);
            assert(given.contains_key(key) && given[key] == all[i as int].1@);
        }
        let name = to_upper(entries[i].0.as_str());
        let value = entries[i].1.clone();
        r.insert(name, value);
        let ghost now = texts(r@);
        assert(now =~= was.insert(name@, value@));
        assert(user_value(given, name@, value@));
        assert forall|other: Seq<char>|
            {
                &&& #[trigger] now.contains_key(other) <==> exists|j: int|
                    0 <= j < i + 1 && uppered((#[trigger] all[j]).0@) == other
                &&& now.contains_key(other) ==> user_value(given, other, now[other])
            } by {
            if other == name@ {
                assert(uppered(all[i as int].0@) == other);
            } else {
                assert(was.contains_key(other) <==> now.contains_key(other));
                if was.contains_key(other) {
                    let j = choose|j: int| 0 <= j < i && uppered((#[trigger] all[j]).0@) == other;
                    assert(0 <= j < i + 1 && uppered(all[j].0@) == other);
                }
            }
        }
        i = i + 1;
    }
    assert forall|name: Seq<char>|
        {
            &&& #[trigger] texts(r@).contains_key(name) <==> named(given, name)
            &&& texts(r@).contains_key(name) ==> user_value(given, name, texts(r@)[name])
        } by {
        if texts(r@).contains_key(name) {
            assert(user_value(given, name, texts(r@)[name]));
        }
        if named(given, name) {
            let key = choose|key: Seq<char>| #[trigger]
                given.contains_key(key) && uppered(key) == name;
            lemma_entries_map(all, key);
            let j = choose|j: int| 0 <= j < all.len() && (#[trigger] all[j]).0@ == key;
            assert(uppered(all[j].0@) == name);
        }
    }
    r
}

/// The variables of a request.
pub fn merge_variables(
    user_variables: &StringMap<String>,
    secrets: &StringMap<String>,
    system_prompt: &Option<String>,
) -> (r: StringMap<String>)
    ensures
        merged(
            texts(r@),
            texts(user_variables@),
            texts(secrets@),
            match system_prompt {
                Some(s) => s@,
                None => Seq::empty(),
            },
        ),
{
    let mut r = upper_variables(user_variables);
    r.overlay(secrets);
    let prompt = match system_prompt {
        Some(s) => s.clone(),
        None => String::new(),
    };
    let ghost was = texts(r@);
    r.insert("SYSTEM_PROMPT".to_owned(), prompt);
    assert(texts(r@) =~= was.insert("SYSTEM_PROMPT"@, prompt@));
    r
}

/// A name that is filled in for each message, not by a variable.
pub open spec fn reserved(name: Seq<char>) -> bool {
    ||| name == "SYSTEM_PROMPT"@
    ||| name == "TEXT"@
    ||| name == "IMAGE"@
    ||| name == "IMAGE_MIME"@
    ||| name == "AUDIO"@
    ||| name == "DOCUMENT"@
}

fn is_reserved(name: &str) -> (r: bool)
    ensures
        r == reserved(name@),
{
    same_text(name, "SYSTEM_PROMPT") || same_text(name, "TEXT") || same_text(name, "IMAGE")
        || same_text(name, "IMAGE_MIME") || same_text(name, "AUDIO") || same_text(name, "DOCUMENT")
}

/// The name is a variable that has to have a value, and has none or a blank one.
pub open spec fn unset(name: Seq<char>, vars: Map<Seq<char>, Seq<char>>) -> bool {
    !reserved(name) && (!vars.contains_key(name) || trimmed(vars[name]).len() == 0)
}

/// The first of the names that has no value but has to have one.
pub open spec fn first_unset(
    names: Seq<Seq<char>>,
    vars: Map<Seq<char>, Seq<char>>,
) -> Option<Seq<char>>
    decreases names.len(),
{
    if names.len() == 0 {
        None
    } else if unset(names[0], vars) {
        Some(names[0])
    } else {
        first_unset(names.skip(1), vars)
    }
}

/// The first variable of a template that has no value but has to have one.
pub fn missing_variable(template: &str, vars: &StringMap<String>) -> (r: Option<String>)
    ensures
        optional(r) == first_unset(variables(template@), texts(vars@)),
{
    let names = extract_variables(template);
    let ghost all = views(names@);
    let mut i: usize = 0;
    assert(all.skip(0) == all);
    while i < names.len()
        invariant
            all == views(names@),
            i <= names@.len(),
            all == variables(template@),
            first_unset(all, texts(vars@)) == first_unset(all.skip(i as int), texts(vars@)),
        decreases names@.len() - i,
    {
        let name = names[i].as_str();
        assert(all.skip(i as int)[0] == name@);
        assert(all.skip(i as int).skip(1) == all.skip(i + 1));
        if !is_reserved(name) {
            let blank: bool = match vars.get(name) {
                Some(v) => {
                    assert(texts(vars@)[name@] == v@);
                    trim(v.as_str()).as_str().is_empty()
                },
                None => true,
            };
            if blank {
                return Some(names[i].clone());
            }
        }
        i = i + 1;
    }
    None
}

/// The first key, in any case of its letters `stream`.
pub open spec fn stream_key(entries: Seq<(Seq<char>, Tree)>) -> Option<Seq<char>>
    decreases entries.len(),
{
    if entries.len() == 0 {
        None
    } else if uppered(entries[0].0) == uppered("stream"@) {
        Some(entries[0].0)
    } else {
        stream_key(entries.skip(1))
    }
}

/// A body that asks for a stream.
pub open spec fn asking_for_stream(body: Tree) -> Tree {
    match body {
        Tree::Object(entries) => match stream_key(entries) {
            Some(key) => body.with(key, Tree::Bool(true)),
            None => body.with("stream"@, Tree::Bool(true)),
        },
        _ => body,
    }
}

/// Has a body ask for a stream: under the key that it has for that, however
/// spelled, or else under `stream`. What is no object stays.
pub fn ask_for_stream(body: Json) -> (r: Json)
    ensures
        r@ == asking_for_stream(body@),
        body@.wf() ==> r@.wf(),
{
    broadcast use lemma_object_view;
    let mut key = "stream".to_owned();
    match &body {
        Json::Object(entries) => {
            let ghost all = entry_trees(entries@);
            let wanted = to_upper("stream");
            let mut i: usize = 0;
            assert(all.skip(0) == all);
            while i < entries.len() && !same_text(
                to_upper(entries[i].0.as_str()).as_str(),
                wanted.as_str(),
            )
                invariant
                    all == entry_trees(entries@),
                    wanted@ == uppered("stream"@),
                    i <= entries@.len(),
                    stream_key(all) == stream_key(all.skip(i as int)),
                decreases entries@.len() - i,
            {
                assert(all.skip(i as int)[0].0 == entries@[i as int].0@);
                assert(all.skip(i as int).skip(1) == all.skip(i + 1));
                i = i + 1;
            }
            if i < entries.len() {
                assert(all.skip(i as int)[0].0 == entries@[i as int].0@);
                key = entries[i].0.clone();
            }
        },
        _ => {},
    }
    body.with(key.as_str(), Json::Bool(true))
}

/// The methods that a request can have.
#[derive(Debug, Clone, Copy, PartialEq, Eq, Structural)]
pub enum Method {
    Get,
    Post,
    Put,
    Patch,
    Delete,
}

/// The method of a name, in any case of its letters.
pub open spec fn method_of(name: Seq<char>) -> Option<Method> {
    let name = uppered(name);
    if name == "GET"@ {
        Some(Method::Get)
    } else if name == "POST"@ {
        Some(Method::Post)
    } else if name == "PUT"@ {
        Some(Method::Put)
    } else if name == "PATCH"@ {
        Some(Method::Patch)
    } else if name == "DELETE"@ {
        Some(Method::Delete)
    } else {
        None
    }
}

/// The method of a name.
pub fn parse_method(name: &str) -> (r: Result<Method, LlmError>)
    ensures
        match r {
            Ok(m) => method_of(name@) == Some(m),
            Err(e) => method_of(name@) is None && e@ == Failure::CurlParse(
                "unsupported method: "@ + uppered(name@),
            ),
        },
{
    let name = to_upper(name);
    let n = name.as_str();
    if same_text(n, "GET") {
        Ok(Method::Get)
    } else if same_text(n, "POST") {
        Ok(Method::Post)
    } else if same_text(n, "PUT") {
        Ok(Method::Put)
    } else if same_text(n, "PATCH") {
        Ok(Method::Patch)
    } else if same_text(n, "DELETE") {
        Ok(Method::Delete)
    } else {
        Err(LlmError::CurlParse("unsupported method: ".to_owned().concat(n)))
    }
}

/// What an HTTP request is.
pub struct Plan {
    pub method: Method,
    pub url: Seq<char>,
    pub headers: Map<Seq<char>, Seq<char>>,
    pub body: Option<Tree>,
}

/// An HTTP request to make. What headers it is sent with, [`sent_headers`] says.
#[derive(Debug)]
pub struct RequestPlan {
    pub method: Method,
    pub url: String,
    pub headers: StringMap<String>,
    pub body: Option<Json>,
}

impl View for RequestPlan {
    type V = Plan;

    open spec fn view(&self) -> Plan {
        Plan {
            method: self.method,
            url: self.url@,
            headers: texts(self.headers@),
            body: optional_tree(self.body),
        }
    }
}

/// The body of a request: the template's, or an empty object, with the messages
/// built and then the variables put in, asking for a stream if one is wanted.
pub open spec fn body_of(
    template: Option<Tree>,
    request: StreamChatRequest,
    vars: Map<Seq<char>, Seq<char>>,
    lossless: bool,
) -> Tree {
    let body = match template {
        Some(t) => t,
        None => empty_object(),
    };
    let body = substituted_tree(
        with_messages(
            body,
            request.history@,
            request.message@,
            files(request.attached_files@),
            lossless,
        ),
        vars,
    );
    if request.provider.streaming {
        asking_for_stream(body)
    } else {
        body
    }
}

/// The headers with the variables put into their values.
pub open spec fn substituted_headers(
    headers: Map<Seq<char>, Seq<char>>,
    vars: Map<Seq<char>, Seq<char>>,
) -> Map<Seq<char>, Seq<char>> {
    headers.map_values(|value: Seq<char>| substituted(value, vars))
}

/// The HTTP request for a chat request, by the provider's template and the
/// variables. A `GET` request has no body.
pub open spec fn planned(
    curl: Curl,
    request: StreamChatRequest,
    vars: Map<Seq<char>, Seq<char>>,
    lossless: bool,
) -> Result<Plan, Failure> {
    match first_unset(variables(request.provider.curl@), vars) {
        Some(name) => Err(Failure::MissingVariable(name)),
        None => match method_of(curl.method) {
            None => Err(Failure::CurlParse("unsupported method: "@ + uppered(curl.method))),
            Some(method) => Ok(
                Plan {
                    method,
                    url: substituted(curl.url, vars),
                    headers: substituted_headers(curl.headers, vars),
                    body: if method == Method::Get {
                        None
                    } else {
                        Some(body_of(curl.body, request, vars, lossless))
                    },
                },
            ),
        },
    }
}

/// Nothing is lost where the user's turn is put into the template's messages.
pub open spec fn template_keeps(template: Option<Tree>) -> bool {
    template matches Some(body) ==> messages_intact(body)
}

fn substitute_headers(headers: &StringMap<String>, vars: &StringMap<String>) -> (r: StringMap<
    String,
>)
    ensures
        texts(r@) == substituted_headers(texts(headers@), texts(vars@)),
{
    let entries = headers.entries();
    let ghost all = entries@;
    let ghost values = texts(vars@);
    let mut r: StringMap<String> = StringMap::new();
    let mut i: usize = 0;
    assert(texts(r@) =~= substituted_headers(texts(entries_map(all.take(0))), values));
    while i < entries.len()
        invariant
            all == entries@,
            values == texts(vars@),
            i <= entries@.len(),
            texts(r@) == substituted_headers(texts(entries_map(all.take(i as int))), values),
        decreases entries@.len() - i,
    {
        let ghost was = texts(r@);
        let ghost now = all.take(i + 1);
        assert(now.drop_last() =~= all.take(i as int));
        let key = entries[i].0.clone();
        let value = substitute_string(entries[i].1.as_str(), vars);
        r.insert(key, value);
        assert(texts(r@) =~= was.insert(key@, value@));
        assert(texts(entries_map(now)) =~= texts(entries_map(all.take(i as int))).insert(
            key@,
            all[i as int].1@,
        ));
        assert(texts(r@) =~= substituted_headers(texts(entries_map(now)), values));
        i = i + 1;
    }
    assert(all.take(i as int) =~= all);
    r
}

/// The body of a request.
fn make_body(template: Option<Json>, request: &StreamChatRequest, vars: &StringMap<String>) -> (r:
    Json)
    requires
        well_formed(template),
    ensures
        r@ == body_of(optional_tree(template), *request, texts(vars@), false),
        template_keeps(optional_tree(template)) ==> r@ == body_of(
            optional_tree(template),
            *request,
            texts(vars@),
            true,
        ),
        r@.wf(),
{
    let mut body = match template {
        Some(t) => t,
        None => Json::object(),
    };
    let ghost start = body@;
    proof {
        if template is None {
            assert(messages_intact(start)) by {
                assert(start.get("messages"@) is None);
                assert(start.get("contents"@) is None);
                assert(start.get("conversation"@) is None);
                assert(start.get("history"@) is None);
            }
        }
    }
    build_messages(
        &mut body,
        request.history.as_slice(),
        request.message.as_str(),
        request.attached_files.as_slice(),
    );
    proof {
        lemma_substituted_shape(body@, texts(vars@));
    }
    substitute_value(&mut body, vars);
    if request.provider.streaming {
        ask_for_stream(body)
    } else {
        body
    }
}

/// The HTTP request for a chat request, with all variables known.
pub fn plan_with(
    parsed: ParsedCurl,
    request: &StreamChatRequest,
    vars: &StringMap<String>,
) -> (r: Result<RequestPlan, LlmError>)
    requires
        well_formed(parsed.body),
    ensures
        match r {
            Ok(plan) => planned(parsed@, *request, texts(vars@), false) == Ok::<Plan, Failure>(
                plan@,
            ) && (template_keeps(parsed@.body) ==> planned(parsed@, *request, texts(vars@), true)
                == Ok::<Plan, Failure>(plan@)) && well_formed(plan.body),
            Err(e) => planned(parsed@, *request, texts(vars@), false) == Err::<Plan, Failure>(e@)
                && planned(parsed@, *request, texts(vars@), true) == Err::<Plan, Failure>(e@),
        },
{
    match missing_variable(request.provider.curl.as_str(), vars) {
        Some(name) => return Err(LlmError::MissingVariable(name)),
        None => {},
    }
    let method = match parse_method(parsed.method.as_str()) {
        Ok(method) => method,
        Err(e) => return Err(e),
    };
    let url = substitute_string(parsed.url.as_str(), vars);
    let headers = substitute_headers(&parsed.headers, vars);
    let body = if method == Method::Get {
        None
    } else {
        Some(make_body(parsed.body, request, vars))
    };
    Ok(RequestPlan { method, url, headers, body })
}

/// The system prompt of a request; an empty one where there is none.
pub open spec fn system_prompt(request: StreamChatRequest) -> Seq<char> {
    match request.system_prompt {
        Some(s) => s@,
        None => Seq::empty(),
    }
}

/// What comes of planning with some way of merging the variables.
pub open spec fn plans_as(
    curl: Curl,
    request: StreamChatRequest,
    secrets: Map<Seq<char>, Seq<char>>,
    result: Result<Plan, Failure>,
) -> bool {
    exists|vars: Map<Seq<char>, Seq<char>>| #[trigger]
        merged(vars, texts(request.provider.user_variables@), secrets, system_prompt(request))
            && result == planned(curl, request, vars, false) && (template_keeps(curl.body)
            ==> result == planned(curl, request, vars, true))
}

/// The HTTP request for a chat request to a custom provider, by its parsed
/// template and its stored secrets.
pub fn plan_custom(
    parsed: ParsedCurl,
    request: &StreamChatRequest,
    secrets: &StringMap<String>,
) -> (r: Result<RequestPlan, LlmError>)
    requires
        well_formed(parsed.body),
    ensures
        plans_as(
            parsed@,
            *request,
            texts(secrets@),
            match r {
                Ok(plan) => Ok(plan@),
                Err(e) => Err(e@),
            },
        ),
        r matches Ok(plan) ==> well_formed(plan.body),
{
    let vars = merge_variables(
        &request.provider.user_variables,
        secrets,
        &request.system_prompt,
    );
    assert(merged(
        texts(vars@),
        texts(request.provider.user_variables@),
        texts(secrets@),
        system_prompt(*request),
    ));
    plan_with(parsed, request, &vars)
}

/// The HTTP request for a chat request to a custom provider, from its template
/// on.
pub fn plan_request(request: &StreamChatRequest, secrets: &StringMap<String>) -> (r: Result<
    RequestPlan,
    LlmError,
>)
    ensures
        match curl_of(request.provider.curl@) {
            Ok(curl) => plans_as(
                curl,
                *request,
                texts(secrets@),
                match r {
                    Ok(plan) => Ok(plan@),
                    Err(e) => Err(e@),
                },
            ),
            Err(failure) => r matches Err(e) && e@ == failure,
        },
        r matches Ok(plan) ==> well_formed(plan.body),
{
    match parse_curl(request.provider.curl.as_str()) {
        Ok(parsed) => plan_custom(parsed, request, secrets),
        Err(e) => Err(e),
    }
}

/// The headers that a request is sent with: those of its plan, in no particular
/// order, and behind them the content type of JSON.
pub fn sent_headers(plan: &RequestPlan) -> (r: Vec<(String, String)>)
    ensures
        r@.len() > 0,
        pairs(r@).last() == content_type(),
        keys_distinct(r@.drop_last()),
        texts(entries_map(r@.drop_last())) == plan@.headers,
{
    let entries = plan.headers.entries();
    let ghost all = entries@;
    let mut r: Vec<(String, String)> = Vec::new();
    let mut i: usize = 0;
    while i < entries.len()
        invariant
            all == entries@,
            i <= entries@.len(),
            r@ == all.take(i as int),
        decreases entries@.len() - i,
    {
        let pair = (entries[i].0.clone(), entries[i].1.clone());
        r.push(pair);
        assert(r@ =~= all.take(i + 1));
        i = i + 1;
    }
    assert(all.take(i as int) =~= all);
    let last = make_content_type();
    r.push(last);
    assert(r@.drop_last() =~= all);
    assert(pairs(r@).last() == (last.0@, last.1@));
    r
}

/// A status that says that a request succeeded.
pub open spec fn succeeded(status: u16) -> bool {
    200 <= status < 300
}

/// The error of a response whose status says that the request did not succeed.
pub fn check_status(status: u16, body: &str) -> (r: Result<(), LlmError>)
    ensures
        match r {
            Ok(_) => succeeded(status),
            Err(e) => !succeeded(status) && e@ == Failure::ProviderApi(status, body@),
        },
{
    if 200 <= status && status < 300 {
        Ok(())
    } else {
        Err(LlmError::ProviderApi { status, body: body.to_owned() })
    }
}

/// The answer in a response that is no stream, and the event that carries it;
/// an empty answer has none.
pub fn whole_answer(response: &Json, path: &str) -> (r: (String, Option<StreamEvent>))
    ensures
        r.0@ == (match by_path(response@, path@) {
            Some(s) => s,
            None => Seq::empty(),
        }),
        match r.1 {
            Some(event) => r.0@.len() > 0 && event@ == Event::Chunk(r.0@),
            None => r.0@.len() == 0,
        },
{
    let content = match extract_by_path(response, path) {
        Some(s) => s,
        None => String::new(),
    };
    if content.as_str().is_empty() {
        (content, None)
    } else {
        let delta = content.clone();
        (content, Some(StreamEvent::Chunk { delta }))
    }
}

/// There is one way of merging the variables, unless the user set one name in
/// two spellings.
pub proof fn lemma_merged_once(
    a: Map<Seq<char>, Seq<char>>,
    b: Map<Seq<char>, Seq<char>>,
    user: Map<Seq<char>, Seq<char>>,
    secrets: Map<Seq<char>, Seq<char>>,
    prompt: Seq<char>,
)
    requires
        merged(a, user, secrets, prompt),
        merged(b, user, secrets, prompt),
        forall|j: Seq<char>, k: Seq<char>| #[trigger]
            user.contains_key(j) && #[trigger] user.contains_key(k) && uppered(j) == uppered(k)
                ==> j == k,
    ensures
        a == b,
{
    assert forall|name: Seq<char>|
        #![trigger a.dom().contains(name)]
        #![trigger a[name]]
        a.dom().contains(name) == b.dom().contains(name) && (a.dom().contains(name) ==> a[name]
            == b[name]) by {
        assert(a.contains_key(name) <==> b.contains_key(name));
        if a.contains_key(name) && name != "SYSTEM_PROMPT"@ && !secrets.contains_key(name) {
            assert(user_value(user, name, a[name]) && user_value(user, name, b[name]));
        }
    }
    assert(a =~= b);
}

/// No variable is missing if and only if each that has to have a value has one
/// that is not blank.
pub proof fn lemma_first_unset(names: Seq<Seq<char>>, vars: Map<Seq<char>, Seq<char>>)
    ensures
        match first_unset(names, vars) {
            Some(name) => names.contains(name) && unset(name, vars),
            None => forall|i: int| 0 <= i < names.len() ==> !unset(#[trigger] names[i], vars),
        },
    decreases names.len(),
{
    if names.len() > 0 {
        let rest = names.skip(1);
        lemma_first_unset(rest, vars);
        if unset(names[0], vars) {
            assert(names.contains(names[0]));
        } else {
            match first_unset(rest, vars) {
                Some(name) => {
                    let k = rest.index_of(name);
                    assert(names[k + 1] == name);
                },
                None => {
                    assert forall|i: int| 0 <= i < names.len() implies !unset(
                        #[trigger] names[i],
                        vars,
                    ) by {
                        if i > 0 {
                            assert(names[i] == rest[i - 1]);
                        }
                    }
                },
            }
        }
    }
}

/// An object that asks for a stream says so under its first key that spells
/// `stream`, and has under every other key what it had.
pub proof fn lemma_asking_for_stream(entries: Seq<(Seq<char>, Tree)>, other: Seq<char>)
    ensures
        ({
            let body = Tree::Object(entries);
            let key = match stream_key(entries) {
                Some(key) => key,
                None => "stream"@,
            };
            &&& uppered(key) == uppered("stream"@)
            &&& asking_for_stream(body).get(key) == Some(Tree::Bool(true))
            &&& other != key ==> asking_for_stream(body).get(other) == body.get(other)
        }),
{
    let key = match stream_key(entries) {
        Some(key) => key,
        None => "stream"@,
    };
    lemma_stream_key(entries);
    lemma_with_entry_get(entries, key, Tree::Bool(true), other);
}

proof fn lemma_stream_key(entries: Seq<(Seq<char>, Tree)>)
    ensures
        stream_key(entries) matches Some(key) ==> uppered(key) == uppered("stream"@),
    decreases entries.len(),
{
    if entries.len() > 0 {
        lemma_stream_key(entries.skip(1));
    }
}

} // verus!
