//! Laws of chats through the hosted service.

use vstd::prelude::*;

use crate::commands::StreamChatRequest;
use crate::json::{empty_object, Tree};
use crate::laws::json::lemma_with;
use crate::laws::messages::{image_mime, lemma_turn};
use crate::laws::text::{blank, lacks, lemma_not_mentioned, lemma_trimmed_blank};
use crate::messages::{is_image, turn};
use crate::pluely::{
    activity_payload, chat_body, chat_messages, default_rule, either, error_message, error_payload,
    error_sources, extra_body, lemma_overlaid_get, optional_header, parts_turn, past_turns,
    report_headers, rule_among, rule_for, rules_of, system_turns, text_part, user_parts,
    ApiConfigError,
};
use crate::schema::{files, File, Role};

verus! {

/// The name of a role.
pub open spec fn role_name(role: Role) -> Seq<char> {
    match role {
        Role::User => "user"@,
        Role::Assistant => "assistant"@,
        Role::System => "system"@,
    }
}

/// Each role has its name, and no two have the same.
pub proof fn lemma_role_names(a: Role, b: Role)
    ensures
        a.name() == role_name(a),
        a != b ==> a.name() != b.name(),
{
    reveal_strlit("user");
    reveal_strlit("assistant");
    reveal_strlit("system");
    assert("user"@.len() == 4 && "assistant"@.len() == 9 && "system"@.len() == 6);
}

/// The tree is a part that holds the text, as it is.
pub open spec fn holds_text(part: Tree, text: Seq<char>) -> bool {
    part.get("type"@) == Some(Tree::Text("text"@)) && part.get("text"@) == Some(Tree::Text(text))
}

proof fn lemma_text_part(text: Seq<char>)
    ensures
        holds_text(text_part(text), text),
{
    reveal_strlit("type");
    reveal_strlit("text");
    let first = empty_object().with("type"@, Tree::Text("text"@));
    assert("type"@[1] != "text"@[1]);
    lemma_with(empty_object(), "type"@, Tree::Text("text"@), "text"@);
    lemma_with(first, "text"@, Tree::Text(text), "type"@);
}

proof fn lemma_parts_turn(role: Seq<char>, parts: Seq<Tree>)
    ensures
        parts_turn(role, parts).get("role"@) == Some(Tree::Text(role)),
        parts_turn(role, parts).get("content"@) == Some(Tree::Array(parts)),
{
    reveal_strlit("role");
    reveal_strlit("content");
    let first = empty_object().with("role"@, Tree::Text(role));
    assert("role"@.len() != "content"@.len());
    lemma_with(empty_object(), "role"@, Tree::Text(role), "content"@);
    lemma_with(first, "content"@, Tree::Array(parts), "role"@);
}

/// The number of messages in front of the history: one where there is a system
/// prompt and it is not empty, else none.
pub open spec fn in_front(request: StreamChatRequest) -> int {
    if request.system_prompt matches Some(s) && s@.len() > 0 {
        1
    } else {
        0
    }
}

/// The message of each turn of the history has the role of that turn, and one
/// text part with the text of that turn.
pub proof fn lemma_past_message(request: StreamChatRequest, i: int)
    requires
        0 <= i < request.history@.len(),
    ensures
        ({
            let out = chat_messages(request);
            let message = out[in_front(request) + i];
            &&& system_turns(request.system_prompt).len() == in_front(request)
            &&& out.len() == in_front(request) + request.history@.len() + 1
            &&& message.get("role"@) == Some(Tree::Text(role_name(request.history@[i].role)))
            &&& message.get("content"@) matches Some(Tree::Array(parts)) && parts.len() == 1
                && holds_text(parts[0], request.history@[i].content@)
        }),
{
    let past = request.history@[i];
    let out = chat_messages(request);
    lemma_role_names(past.role, past.role);
    lemma_text_part(past.content@);
    lemma_parts_turn(past.role.name(), seq![text_part(past.content@)]);
    assert(out[in_front(request) + i] == past_turns(request.history@)[i]);
}

/// Two turns of the history that differ in role have messages that differ in
/// role.
pub proof fn lemma_past_roles_differ(request: StreamChatRequest, i: int, j: int)
    requires
        0 <= i < request.history@.len(),
        0 <= j < request.history@.len(),
        request.history@[i].role != request.history@[j].role,
    ensures
        chat_messages(request)[in_front(request) + i].get("role"@) != chat_messages(
            request,
        )[in_front(request) + j].get("role"@),
{
    lemma_past_message(request, i);
    lemma_past_message(request, j);
    lemma_role_names(request.history@[i].role, request.history@[j].role);
    lemma_role_names(request.history@[j].role, request.history@[i].role);
}

/// A system prompt that is not empty stands first, as it is.
pub proof fn lemma_system_message(request: StreamChatRequest)
    requires
        in_front(request) == 1,
    ensures
        chat_messages(request)[0].get("role"@) == Some(Tree::Text("system"@)),
        chat_messages(request)[0].get("content"@) == Some(
            Tree::Text(request.system_prompt->0@),
        ),
{
    lemma_turn("system"@, request.system_prompt->0@);
    assert(chat_messages(request)[0] == turn("system"@, request.system_prompt->0@));
}

/// The user's message stands last, with the text of the request first and then
/// the images.
pub proof fn lemma_user_message(request: StreamChatRequest)
    ensures
        ({
            let out = chat_messages(request);
            let parts = user_parts(request.message@, files(request.attached_files@));
            &&& out.len() > 0
            &&& out.last().get("role"@) == Some(Tree::Text("user"@))
            &&& out.last().get("content"@) == Some(Tree::Array(parts))
            &&& parts.len() > 0
            &&& holds_text(parts[0], request.message@)
        }),
{
    let parts = user_parts(request.message@, files(request.attached_files@));
    lemma_parts_turn("user"@, parts);
    lemma_user_parts(request.message@, files(request.attached_files@), Seq::empty());
}

/// The parts of the user's message: the text, and behind it a part for each image
/// and for no other file, in the order of the files.
pub proof fn lemma_user_parts(message: Seq<char>, a: Seq<File>, b: Seq<File>)
    ensures
        user_parts(message, a).len() > 0,
        holds_text(user_parts(message, a)[0], message),
        user_parts(message, Seq::empty()).len() == 1,
        user_parts(message, a + b) == user_parts(message, a) + user_parts(message, b).skip(1),
    decreases a.len() + b.len(),
{
    lemma_text_part(message);
    if a.len() > 0 {
        lemma_user_parts(message, a.drop_last(), Seq::empty());
    }
    if b.len() == 0 {
        assert(a + b =~= a);
        assert(user_parts(message, b).skip(1) =~= Seq::empty());
        assert(user_parts(message, a) + Seq::<Tree>::empty() =~= user_parts(message, a));
    } else {
        lemma_user_parts(message, a, b.drop_last());
        lemma_user_parts(message, b.drop_last(), Seq::empty());
        assert((a + b).drop_last() =~= a + b.drop_last());
        assert(user_parts(message, a + b) =~= user_parts(message, a) + user_parts(message, b).skip(
            1,
        ));
    }
}

/// An image is a part with a data address of its MIME type and its content; any
/// other file is no part.
pub proof fn lemma_image_part(message: Seq<char>, f: File)
    ensures
        ({
            let parts = user_parts(message, seq![f]);
            if image_mime(f.mime) {
                &&& parts.len() == 2
                &&& parts[1].get("type"@) == Some(Tree::Text("image_url"@))
                &&& parts[1].get("image_url"@) matches Some(image) && image.get("url"@) == Some(
                    Tree::Text("data:"@ + f.mime + ";base64,"@ + f.base64),
                )
            } else {
                parts.len() == 1
            }
        }),
{
    reveal_with_fuel(user_parts, 2);
    assert(seq![f].drop_last() =~= Seq::empty());
    reveal_strlit("image/");
    if f.mime.len() >= 6 {
        assert(f.mime.take(6) =~= f.mime.subrange(0, 6));
    }
    assert(is_image(f) == image_mime(f.mime));
    reveal_strlit("type");
    reveal_strlit("image_url");
    assert("type"@.len() != "image_url"@.len());
    let url = Tree::Text("data:"@ + f.mime + ";base64,"@ + f.base64);
    let image = empty_object().with("url"@, url);
    let first = empty_object().with("type"@, Tree::Text("image_url"@));
    lemma_with(empty_object(), "url"@, url, "url"@);
    lemma_with(empty_object(), "type"@, Tree::Text("image_url"@), "type"@);
    lemma_with(first, "image_url"@, image, "type"@);
}

/// The body of a chat has the model, the messages and the wish for a stream, save
/// for what the service wants put in: each of its entries, whatever it is, stands
/// in the body as it is.
pub proof fn lemma_chat_body(
    model: Seq<char>,
    request: StreamChatRequest,
    entries: Seq<(Seq<char>, Tree)>,
    key: Seq<char>,
)
    requires
        Tree::Object(entries).wf(),
    ensures
        ({
            let own = if key == "model"@ {
                Some(Tree::Text(model))
            } else if key == "messages"@ {
                Some(Tree::Array(chat_messages(request)))
            } else if key == "stream"@ {
                Some(Tree::Bool(true))
            } else {
                None
            };
            &&& chat_body(model, request, None).get(key) == own
            &&& chat_body(model, request, Some(Tree::Object(entries))).get(key) == (
            match Tree::Object(entries).get(key) {
                Some(v) => Some(v),
                None => own,
            })
        }),
{
    reveal_strlit("model");
    reveal_strlit("messages");
    reveal_strlit("stream");
    assert("model"@.len() == 5 && "messages"@.len() == 8 && "stream"@.len() == 6);
    let messages = Tree::Array(chat_messages(request));
    let one = empty_object().with("model"@, Tree::Text(model));
    let two = one.with("messages"@, messages);
    let three = two.with("stream"@, Tree::Bool(true));
    lemma_with(empty_object(), "model"@, Tree::Text(model), key);
    lemma_with(one, "messages"@, messages, key);
    lemma_with(two, "stream"@, Tree::Bool(true), key);
    lemma_with(one, "messages"@, messages, "model"@);
    lemma_with(two, "stream"@, Tree::Bool(true), "model"@);
    lemma_overlaid_get(three, entries, key);
}

/// What the service wants put in that is no object changes nothing, and an empty
/// text puts nothing in.
pub proof fn lemma_no_extra(model: Seq<char>, request: StreamChatRequest, t: Tree)
    requires
        !(t is Object),
    ensures
        chat_body(model, request, Some(t)) == chat_body(model, request, None),
        extra_body(Seq::empty()) is None,
{
}

/// A rule that fits a source: it asks for something, and that stands in the
/// source.
pub open spec fn fits(rule: ApiConfigError, source: Seq<char>) -> bool {
    rule.includes@.len() > 0 && !lacks(source, rule.includes@)
}

/// No rule fits the source.
pub open spec fn unfit(rules: Seq<ApiConfigError>, source: Seq<char>) -> bool {
    forall|k: int| 0 <= k < rules.len() ==> !fits(#[trigger] rules[k], source)
}

proof fn lemma_rule_for(rules: Seq<ApiConfigError>, source: Seq<char>, k: int)
    requires
        0 <= k <= rules.len(),
        forall|j: int| 0 <= j < k ==> !fits(#[trigger] rules[j], source),
        k < rules.len() ==> fits(rules[k], source),
    ensures
        rule_for(rules, source) == (if k < rules.len() {
            Some(rules[k].error@)
        } else {
            None
        }),
    decreases rules.len(),
{
    if rules.len() > 0 {
        lemma_not_mentioned(source, rules[0].includes@);
        if k > 0 {
            let rest = rules.skip(1);
            assert(!fits(rules[0], source));
            assert forall|j: int| 0 <= j < k - 1 implies !fits(#[trigger] rest[j], source) by {
                assert(rest[j] == rules[j + 1]);
            }
            lemma_rule_for(rest, source, k - 1);
        }
    }
}

proof fn lemma_rule_among(rules: Seq<ApiConfigError>, sources: Seq<Seq<char>>, i: int, k: int)
    requires
        0 <= i <= sources.len(),
        forall|j: int| 0 <= j < i ==> unfit(rules, #[trigger] sources[j]),
        i < sources.len() ==> 0 <= k < rules.len() && fits(rules[k], sources[i]) && forall|j: int|
            0 <= j < k ==> !fits(#[trigger] rules[j], sources[i]),
    ensures
        rule_among(rules, sources) == (if i < sources.len() {
            Some(rules[k].error@)
        } else {
            None
        }),
    decreases sources.len(),
{
    if sources.len() > 0 {
        if i == 0 {
            lemma_rule_for(rules, sources[0], k);
        } else {
            let rest = sources.skip(1);
            assert(unfit(rules, sources[0]));
            lemma_rule_for(rules, sources[0], rules.len() as int);
            assert forall|j: int| 0 <= j < i - 1 implies unfit(rules, #[trigger] rest[j]) by {
                assert(rest[j] == sources[j + 1]);
            }
            lemma_rule_among(rules, rest, i - 1, k);
        }
    }
}

/// What is shown for an error is the text of the first rule that fits the first
/// source that any rule fits.
pub proof fn lemma_error_by_rule(
    rules: Seq<ApiConfigError>,
    sources: Seq<Seq<char>>,
    i: int,
    k: int,
)
    requires
        0 <= i < sources.len(),
        0 <= k < rules.len(),
        forall|j: int| 0 <= j < i ==> unfit(rules, #[trigger] sources[j]),
        fits(rules[k], sources[i]),
        forall|j: int| 0 <= j < k ==> !fits(#[trigger] rules[j], sources[i]),
    ensures
        error_message(rules, sources) == rules[k].error@,
{
    lemma_rule_among(rules, sources, i, k);
}

proof fn lemma_default_rule(rules: Seq<ApiConfigError>, k: int)
    requires
        0 <= k <= rules.len(),
        forall|j: int| 0 <= j < k ==> !blank((#[trigger] rules[j]).includes@),
        k < rules.len() ==> blank(rules[k].includes@),
    ensures
        default_rule(rules) == (if k < rules.len() {
            Some(rules[k].error@)
        } else {
            None
        }),
    decreases rules.len(),
{
    if rules.len() > 0 {
        lemma_trimmed_blank(rules[0].includes@);
        if k > 0 {
            let rest = rules.skip(1);
            assert(!blank(rules[0].includes@));
            assert forall|j: int| 0 <= j < k - 1 implies !blank((#[trigger] rest[j]).includes@) by {
                assert(rest[j] == rules[j + 1]);
            }
            lemma_default_rule(rest, k - 1);
        }
    }
}

/// Where no rule fits any source, the first rule that asks for nothing but white
/// space is shown, or else the first rule, or else a general text.
pub proof fn lemma_error_by_default(rules: Seq<ApiConfigError>, sources: Seq<Seq<char>>, k: int)
    requires
        forall|j: int| 0 <= j < sources.len() ==> unfit(rules, #[trigger] sources[j]),
        0 <= k <= rules.len(),
        forall|j: int| 0 <= j < k ==> !blank((#[trigger] rules[j]).includes@),
        k < rules.len() ==> blank(rules[k].includes@),
    ensures
        error_message(rules, sources) == (if k < rules.len() {
            rules[k].error@
        } else if rules.len() > 0 {
            rules[0].error@
        } else {
            "Something went wrong. Please try switching to a different model or contact support."@
        }),
{
    lemma_rule_among(rules, sources, sources.len() as int, 0);
    lemma_default_rule(rules, k);
}

/// A refused chat is explained by its body, then its status, then the text under
/// `error` in its body, then the one under `message`, as far as there are any.
pub proof fn lemma_error_sources(status: Seq<char>, body: Seq<char>, t: Tree)
    ensures
        error_sources(status, body, None) == seq![body, status],
        error_sources(status, body, Some(t)) == seq![body, status] + (match t.get("error"@) {
            Some(Tree::Text(s)) => seq![s],
            _ => Seq::empty(),
        }) + (match t.get("message"@) {
            Some(Tree::Text(s)) => seq![s],
            _ => Seq::empty(),
        }),
{
    assert(error_sources(status, body, None) =~= seq![body, status]);
    assert(error_sources(status, body, Some(t)) =~= seq![body, status] + (match t.get("error"@) {
        Some(Tree::Text(s)) => seq![s],
        _ => Seq::empty(),
    }) + (match t.get("message"@) {
        Some(Tree::Text(s)) => seq![s],
        _ => Seq::empty(),
    }));
}

/// The report of an error says each thing under its own key, as it is.
pub proof fn lemma_error_payload(
    machine_id: Seq<char>,
    message: Seq<char>,
    app_version: Seq<char>,
    path: Seq<char>,
    model: Seq<char>,
    provider: Seq<char>,
)
    ensures
        ({
            let t = error_payload(machine_id, message, app_version, path, model, provider);
            &&& t.get("machine_id"@) == Some(Tree::Text(machine_id))
            &&& t.get("error_message"@) == Some(Tree::Text(message))
            &&& t.get("app_version"@) == Some(Tree::Text(app_version))
            &&& t.get("endpoint"@) == Some(Tree::Text(path))
            &&& t.get("model"@) == Some(Tree::Text(model))
            &&& t.get("provider"@) == Some(Tree::Text(provider))
        }),
{
    reveal_strlit("machine_id");
    reveal_strlit("error_message");
    reveal_strlit("app_version");
    reveal_strlit("endpoint");
    reveal_strlit("model");
    reveal_strlit("provider");
    assert("machine_id"@.len() == 10 && "error_message"@.len() == 13 && "app_version"@.len() == 11
        && "model"@.len() == 5);
    assert("endpoint"@ != "provider"@) by {
        assert("endpoint"@[0] != "provider"@[0]);
    }
    let a = empty_object().with("machine_id"@, Tree::Text(machine_id));
    let b = a.with("error_message"@, Tree::Text(message));
    let c = b.with("app_version"@, Tree::Text(app_version));
    let d = c.with("endpoint"@, Tree::Text(path));
    let e = d.with("model"@, Tree::Text(model));
    lemma_with(empty_object(), "machine_id"@, Tree::Text(machine_id), "model"@);
    lemma_with(a, "error_message"@, Tree::Text(message), "machine_id"@);
    lemma_with(b, "app_version"@, Tree::Text(app_version), "machine_id"@);
    lemma_with(b, "app_version"@, Tree::Text(app_version), "error_message"@);
    lemma_with(c, "endpoint"@, Tree::Text(path), "machine_id"@);
    lemma_with(c, "endpoint"@, Tree::Text(path), "error_message"@);
    lemma_with(c, "endpoint"@, Tree::Text(path), "app_version"@);
    lemma_with(d, "model"@, Tree::Text(model), "machine_id"@);
    lemma_with(d, "model"@, Tree::Text(model), "error_message"@);
    lemma_with(d, "model"@, Tree::Text(model), "app_version"@);
    lemma_with(d, "model"@, Tree::Text(model), "endpoint"@);
    lemma_with(e, "provider"@, Tree::Text(provider), "machine_id"@);
    lemma_with(e, "provider"@, Tree::Text(provider), "error_message"@);
    lemma_with(e, "provider"@, Tree::Text(provider), "app_version"@);
    lemma_with(e, "provider"@, Tree::Text(provider), "endpoint"@);
    lemma_with(e, "provider"@, Tree::Text(provider), "model"@);
}

/// The report of a chat says each thing under its own key, as it is, and says
/// something about usage where something is known of it.
pub proof fn lemma_activity_payload(
    machine_id: Seq<char>,
    app_version: Seq<char>,
    model: Seq<char>,
    usage: Option<Tree>,
)
    ensures
        ({
            let t = activity_payload(machine_id, app_version, model, usage);
            &&& t.get("machine_id"@) == Some(Tree::Text(machine_id))
            &&& t.get("app_version"@) == Some(Tree::Text(app_version))
            &&& t.get("ai_model"@) == Some(Tree::Text(model))
            &&& t.get("usage"@) == usage
        }),
{
    reveal_strlit("machine_id");
    reveal_strlit("app_version");
    reveal_strlit("ai_model");
    reveal_strlit("usage");
    assert("machine_id"@.len() == 10 && "app_version"@.len() == 11 && "ai_model"@.len() == 8
        && "usage"@.len() == 5);
    let a = empty_object().with("machine_id"@, Tree::Text(machine_id));
    let b = a.with("app_version"@, Tree::Text(app_version));
    let c = b.with("ai_model"@, Tree::Text(model));
    lemma_with(empty_object(), "machine_id"@, Tree::Text(machine_id), "usage"@);
    lemma_with(a, "app_version"@, Tree::Text(app_version), "machine_id"@);
    lemma_with(a, "app_version"@, Tree::Text(app_version), "usage"@);
    lemma_with(b, "ai_model"@, Tree::Text(model), "machine_id"@);
    lemma_with(b, "ai_model"@, Tree::Text(model), "app_version"@);
    lemma_with(b, "ai_model"@, Tree::Text(model), "usage"@);
    if let Some(u) = usage {
        lemma_with(c, "usage"@, u, "machine_id"@);
        lemma_with(c, "usage"@, u, "app_version"@);
        lemma_with(c, "usage"@, u, "ai_model"@);
    }
}

/// The first of two texts counts if there is one, though it be empty, and else
/// the second; a header is there where it has a value, though that be empty; the
/// rules of a configuration are all its rules.
pub proof fn lemma_choices(a: Seq<char>, b: Option<Seq<char>>, rules: Vec<ApiConfigError>)
    ensures
        either(Some(a), b) == a,
        either(None, Some(a)) == a,
        either(None, None).len() == 0,
        optional_header(a, None).len() == 0,
        b matches Some(value) ==> optional_header(a, b) == seq![(a, value)],
        rules_of(Some(rules)) == rules@,
        rules_of(None).len() == 0,
        report_headers(a) == seq![
            ("Authorization"@, "Bearer "@ + a),
            ("Content-Type"@, "application/json"@),
        ],
{
}

} // verus!
