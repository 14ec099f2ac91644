//! Laws of requests to providers.

use vstd::prelude::*;

use crate::commands::StreamChatRequest;
use crate::curl::Curl;
use crate::json::{empty_object, entry, Tree};
use crate::laws::json::lemma_with;
use crate::laws::template::{lemma_nothing_substituted, lemma_substituted};
use crate::laws::text::{blank, lacks, lemma_trimmed_blank, pair_free};
use crate::llm::Failure;
use crate::messages::with_messages;
use crate::provider::{
    asking_for_stream, body_of, first_unset, merged, method_of, named, planned, plans_as, reserved,
    stream_key, substituted_headers, succeeded, system_prompt, user_value, Method, Plan,
};
use crate::schema::files;
use crate::string_map::texts;
use crate::template::{substituted, substituted_tree, variables};
use crate::text::uppered;

verus! {

/// Where a variable has its value from: the system prompt its own, whatever it
/// is; any other the stored secret, whatever it is, and only else what the user
/// set under that name in any case of its letters. No other variable has a value.
pub proof fn lemma_merged(
    vars: Map<Seq<char>, Seq<char>>,
    user: Map<Seq<char>, Seq<char>>,
    secrets: Map<Seq<char>, Seq<char>>,
    prompt: Seq<char>,
    name: Seq<char>,
    key: Seq<char>,
)
    requires
        merged(vars, user, secrets, prompt),
    ensures
        vars.contains_key("SYSTEM_PROMPT"@) && vars["SYSTEM_PROMPT"@] == prompt,
        name != "SYSTEM_PROMPT"@ && secrets.contains_key(name) ==> vars.contains_key(name)
            && vars[name] == secrets[name],
        user.contains_key(key) ==> vars.contains_key(uppered(key)),
        user.contains_key(key) && uppered(key) != "SYSTEM_PROMPT"@ && !secrets.contains_key(
            uppered(key),
        ) && (forall|k: Seq<char>| #[trigger]
            user.contains_key(k) && uppered(k) == uppered(key) ==> k == key)
            ==> vars[uppered(key)] == user[key],
        vars.contains_key(name) && name != "SYSTEM_PROMPT"@ && !secrets.contains_key(name)
            ==> exists|k: Seq<char>| #[trigger]
            user.contains_key(k) && uppered(k) == name && vars[name] == user[k],
{
    assert(vars.contains_key("SYSTEM_PROMPT"@));
    if secrets.contains_key(name) {
        assert(vars.contains_key(name));
    }
    let upper = uppered(key);
    if user.contains_key(key) {
        assert(named(user, upper));
        assert(vars.contains_key(upper));
        if upper != "SYSTEM_PROMPT"@ && !secrets.contains_key(upper) {
            assert(user_value(user, upper, vars[upper]));
        }
    }
    if vars.contains_key(name) && name != "SYSTEM_PROMPT"@ && !secrets.contains_key(name) {
        assert(user_value(user, name, vars[name]));
    }
}

/// The variables that need no value of their own.
pub open spec fn provided(name: Seq<char>) -> bool {
    name == "SYSTEM_PROMPT"@ || name == "TEXT"@ || name == "IMAGE"@ || name == "IMAGE_MIME"@ || name
        == "AUDIO"@ || name == "DOCUMENT"@
}

/// The variable has to have a value and has none, or one of white space alone.
pub open spec fn lacking(name: Seq<char>, vars: Map<Seq<char>, Seq<char>>) -> bool {
    !provided(name) && (!vars.contains_key(name) || blank(vars[name]))
}

/// The variable that is reported as missing is the first that has to have a value
/// and has none but white space, and none is where all have one.
pub proof fn lemma_first_lacking(names: Seq<Seq<char>>, vars: Map<Seq<char>, Seq<char>>, i: int)
    requires
        0 <= i <= names.len(),
        forall|j: int| 0 <= j < i ==> !lacking(#[trigger] names[j], vars),
        i < names.len() ==> lacking(names[i], vars),
    ensures
        first_unset(names, vars) == (if i < names.len() {
            Some(names[i])
        } else {
            None
        }),
    decreases names.len(),
{
    if names.len() > 0 {
        lemma_trimmed_blank(vars[names[0]]);
        assert(reserved(names[0]) == provided(names[0]));
        if i > 0 {
            let rest = names.skip(1);
            assert(!lacking(names[0], vars));
            assert forall|j: int| 0 <= j < i - 1 implies !lacking(#[trigger] rest[j], vars) by {
                assert(rest[j] == names[j + 1]);
            }
            lemma_first_lacking(rest, vars, i - 1);
        }
    }
}

/// The methods that a request can have, by their names in any case of the
/// letters.
pub proof fn lemma_methods(name: Seq<char>)
    ensures
        uppered(name) == "GET"@ ==> method_of(name) == Some(Method::Get),
        uppered(name) == "POST"@ ==> method_of(name) == Some(Method::Post),
        uppered(name) == "PUT"@ ==> method_of(name) == Some(Method::Put),
        uppered(name) == "PATCH"@ ==> method_of(name) == Some(Method::Patch),
        uppered(name) == "DELETE"@ ==> method_of(name) == Some(Method::Delete),
        uppered(name) != "GET"@ && uppered(name) != "POST"@ && uppered(name) != "PUT"@ && uppered(
            name,
        ) != "PATCH"@ && uppered(name) != "DELETE"@ ==> method_of(name) is None,
{
    reveal_strlit("GET");
    reveal_strlit("POST");
    reveal_strlit("PUT");
    reveal_strlit("PATCH");
    reveal_strlit("DELETE");
    assert("GET"@.len() == 3 && "POST"@.len() == 4 && "PUT"@.len() == 3 && "PATCH"@.len() == 5
        && "DELETE"@.len() == 6);
    assert("GET"@[0] != "PUT"@[0]);
}

/// A request succeeded if and only if its status is one of 200 to 299.
pub proof fn lemma_succeeded(status: u16)
    ensures
        succeeded(status) <==> 200 <= status <= 299,
{
}

proof fn lemma_stream_spelling()
    ensures
        uppered("stream"@) == "STREAM"@,
{
    reveal_strlit("stream");
    reveal_strlit("STREAM");
    assert(uppered("stream"@) =~= "STREAM"@);
}

/// A body that asks for a stream does so under the key that is spelled `stream`
/// in whatever case, the first one if it has several and a new one if it has
/// none, and keeps what it has under every other key.
pub proof fn lemma_stream_asked(body: Tree, key: Seq<char>)
    requires
        body is Object,
    ensures
        uppered(key) != "STREAM"@ ==> asking_for_stream(body).get(key) == body.get(key),
        exists|k: Seq<char>|
            uppered(k) == "STREAM"@ && #[trigger] asking_for_stream(body).get(k) == Some(
                Tree::Bool(true),
            ),
        (forall|i: int|
            0 <= i < body->Object_0.len() ==> uppered((#[trigger] body->Object_0[i]).0)
                != "STREAM"@) ==> asking_for_stream(body).get("stream"@) == Some(Tree::Bool(true)),
        asking_for_stream(body) is Object,
{
    let entries = body->Object_0;
    lemma_stream_spelling();
    lemma_stream_key_spelled(entries);
    let at = match stream_key(entries) {
        Some(k) => k,
        None => "stream"@,
    };
    lemma_with(body, at, Tree::Bool(true), key);
    assert(asking_for_stream(body).get(at) == Some(Tree::Bool(true)));
}

proof fn lemma_stream_key_spelled(entries: Seq<(Seq<char>, Tree)>)
    ensures
        match stream_key(entries) {
            Some(k) => uppered(k) == "STREAM"@ && exists|i: int|
                0 <= i < entries.len() && (#[trigger] entries[i]).0 == k,
            None => forall|i: int|
                0 <= i < entries.len() ==> uppered((#[trigger] entries[i]).0) != "STREAM"@,
        },
    decreases entries.len(),
{
    lemma_stream_spelling();
    if entries.len() > 0 {
        let rest = entries.skip(1);
        lemma_stream_key_spelled(rest);
        if uppered(entries[0].0) == uppered("stream"@) {
            assert(entries[0].0 == stream_key(entries)->0);
        } else {
            match stream_key(rest) {
                Some(k) => {
                    let i = choose|i: int| 0 <= i < rest.len() && (#[trigger] rest[i]).0 == k;
                    assert(entries[i + 1].0 == k);
                },
                None => {
                    assert forall|i: int| 0 <= i < entries.len() implies uppered(
                        (#[trigger] entries[i]).0,
                    ) != "STREAM"@ by {
                        if i > 0 {
                            assert(rest[i - 1] == entries[i]);
                        }
                    }
                },
            }
        }
    }
}

proof fn lemma_substituted_entry(
    entries: Seq<(Seq<char>, Tree)>,
    out: Seq<(Seq<char>, Tree)>,
    vars: Map<Seq<char>, Seq<char>>,
    key: Seq<char>,
)
    requires
        out.len() == entries.len(),
        forall|i: int|
            0 <= i < entries.len() ==> #[trigger] out[i] == (
                entries[i].0,
                substituted_tree(entries[i].1, vars),
            ),
    ensures
        entry(out, key) == (match entry(entries, key) {
            Some(v) => Some(substituted_tree(v, vars)),
            None => None,
        }),
    decreases entries.len(),
{
    if entries.len() > 0 {
        assert(out[0] == (entries[0].0, substituted_tree(entries[0].1, vars)));
        assert forall|i: int| 0 <= i < entries.skip(1).len() implies #[trigger] out.skip(1)[i] == (
            entries.skip(1)[i].0,
            substituted_tree(entries.skip(1)[i].1, vars),
        ) by {
            assert(out.skip(1)[i] == out[i + 1]);
        }
        lemma_substituted_entry(entries.skip(1), out.skip(1), vars, key);
    }
}

/// Putting variables into a body puts them into what stands under each key.
pub proof fn lemma_substituted_get(
    body: Tree,
    vars: Map<Seq<char>, Seq<char>>,
    key: Seq<char>,
)
    requires
        body is Object,
    ensures
        substituted_tree(body, vars) is Object,
        substituted_tree(body, vars).get(key) == (match body.get(key) {
            Some(v) => Some(substituted_tree(v, vars)),
            None => None,
        }),
{
    let entries = body->Object_0;
    let out = substituted_tree(body, vars)->Object_0;
    assert forall|i: int| 0 <= i < entries.len() implies #[trigger] out[i] == (
        entries[i].0,
        substituted_tree(entries[i].1, vars),
    ) by {}
    lemma_substituted_entry(entries, out, vars, key);
}

/// The body of a request has under each key what its template with the messages
/// has there, with the variables put in. Under a key that is spelled `stream` it
/// asks for a stream where one is wanted.
pub proof fn lemma_body_of(
    template: Tree,
    request: StreamChatRequest,
    vars: Map<Seq<char>, Seq<char>>,
    lossless: bool,
    key: Seq<char>,
)
    requires
        template is Object,
    ensures
        ({
            let body = body_of(Some(template), request, vars, lossless);
            let built = with_messages(
                template,
                request.history@,
                request.message@,
                files(request.attached_files@),
                lossless,
            );
            let value = match built.get(key) {
                Some(v) => Some(substituted_tree(v, vars)),
                None => None,
            };
            &&& uppered(key) != "STREAM"@ || !request.provider.streaming ==> body.get(key) == value
            &&& request.provider.streaming ==> exists|k: Seq<char>|
                uppered(k) == "STREAM"@ && #[trigger] body.get(k) == Some(Tree::Bool(true))
        }),
{
    let built = with_messages(
        template,
        request.history@,
        request.message@,
        files(request.attached_files@),
        lossless,
    );
    assert(built is Object);
    lemma_substituted_get(built, vars, key);
    lemma_stream_asked(substituted_tree(built, vars), key);
}

/// Without a template the body is an empty object, but for the wish for a stream.
pub proof fn lemma_no_template(
    request: StreamChatRequest,
    vars: Map<Seq<char>, Seq<char>>,
    lossless: bool,
    key: Seq<char>,
)
    ensures
        body_of(None, request, vars, lossless).get(key) == (if request.provider.streaming && key
            == "stream"@ {
            Some(Tree::Bool(true))
        } else {
            None
        }),
{
    let none = empty_object();
    assert(none->Object_0 =~= Seq::empty());
    lemma_with(none, "stream"@, Tree::Bool(true), key);
    let built = with_messages(
        none,
        request.history@,
        request.message@,
        files(request.attached_files@),
        lossless,
    );
    assert(none.get("messages"@) is None && none.get("contents"@) is None && none.get(
        "conversation"@,
    ) is None && none.get("history"@) is None);
    assert(built == none);
    assert(substituted_tree(none, vars)->Object_0 =~= none->Object_0);
    assert(substituted_tree(none, vars) == none);
    lemma_stream_asked(none, key);
}

/// A plan has the method of the template, the address with the variables put in,
/// each header with the variables put into its value, and a body unless it is a
/// `GET`.
pub proof fn lemma_planned(
    curl: Curl,
    request: StreamChatRequest,
    vars: Map<Seq<char>, Seq<char>>,
    lossless: bool,
    header: Seq<char>,
)
    ensures
        match first_unset(variables(request.provider.curl@), vars) {
            Some(name) => planned(curl, request, vars, lossless) == Err::<Plan, Failure>(
                Failure::MissingVariable(name),
            ),
            None => match method_of(curl.method) {
                None => planned(curl, request, vars, lossless) == Err::<Plan, Failure>(
                    Failure::CurlParse("unsupported method: "@ + uppered(curl.method)),
                ),
                Some(method) => planned(curl, request, vars, lossless) matches Ok(plan)
                    && plan.method == method && plan.url == substituted(curl.url, vars)
                    && plan.headers.contains_key(header) == curl.headers.contains_key(header) && (
                curl.headers.contains_key(header) ==> plan.headers[header] == substituted(
                    curl.headers[header],
                    vars,
                )) && plan.body == (if method == Method::Get {
                    None
                } else {
                    Some(body_of(curl.body, request, vars, lossless))
                }),
            },
        },
{
}

/// A secret that the address names stands in the address of the request, whatever
/// it is, and what stands around it stays.
pub proof fn lemma_secret_in_url(
    curl: Curl,
    request: StreamChatRequest,
    secrets: Map<Seq<char>, Seq<char>>,
    plan: Plan,
    a: Seq<char>,
    name: Seq<char>,
    b: Seq<char>,
)
    requires
        plans_as(curl, request, secrets, Ok(plan)),
        secrets.contains_key(name),
        name != "SYSTEM_PROMPT"@,
        pair_free(a, '{'),
        pair_free(name, '}'),
        lacks(b, seq!['{', '{']),
        curl.url == a + seq!['{', '{'] + name + seq!['}', '}'] + b,
    ensures
        plan.url == a + secrets[name] + b,
{
    let user = texts(request.provider.user_variables@);
    let prompt = system_prompt(request);
    let vars = choose|vars: Map<Seq<char>, Seq<char>>| #[trigger]
        merged(vars, user, secrets, prompt) && Ok::<Plan, Failure>(plan) == planned(
            curl,
            request,
            vars,
            false,
        );
    lemma_merged(vars, user, secrets, prompt, name, name);
    lemma_substituted(a, name, b, vars);
    lemma_nothing_substituted(b, b, vars);
}

/// A secret that a header names stands in the header of the request, whatever it
/// is, and what stands around it stays.
pub proof fn lemma_secret_in_header(
    curl: Curl,
    request: StreamChatRequest,
    secrets: Map<Seq<char>, Seq<char>>,
    plan: Plan,
    header: Seq<char>,
    a: Seq<char>,
    name: Seq<char>,
    b: Seq<char>,
)
    requires
        plans_as(curl, request, secrets, Ok(plan)),
        secrets.contains_key(name),
        name != "SYSTEM_PROMPT"@,
        pair_free(a, '{'),
        pair_free(name, '}'),
        lacks(b, seq!['{', '{']),
        curl.headers.contains_key(header),
        curl.headers[header] == a + seq!['{', '{'] + name + seq!['}', '}'] + b,
    ensures
        plan.headers.contains_key(header),
        plan.headers[header] == a + secrets[name] + b,
{
    let user = texts(request.provider.user_variables@);
    let prompt = system_prompt(request);
    let vars = choose|vars: Map<Seq<char>, Seq<char>>| #[trigger]
        merged(vars, user, secrets, prompt) && Ok::<Plan, Failure>(plan) == planned(
            curl,
            request,
            vars,
            false,
        );
    lemma_merged(vars, user, secrets, prompt, name, name);
    lemma_substituted(a, name, b, vars);
    lemma_nothing_substituted(b, b, vars);
}

/// Headers keep their names, and a request without a system prompt has an empty
/// one.
pub proof fn lemma_headers_and_prompt(
    headers: Map<Seq<char>, Seq<char>>,
    vars: Map<Seq<char>, Seq<char>>,
    request: StreamChatRequest,
)
    ensures
        substituted_headers(headers, vars).dom() == headers.dom(),
        request.system_prompt matches Some(s) ==> system_prompt(request) == s@,
        request.system_prompt is None ==> system_prompt(request).len() == 0,
{
    assert(substituted_headers(headers, vars).dom() =~= headers.dom());
}

} // verus!
