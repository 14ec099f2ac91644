//! Laws of the calls to the service: settings, licences and audio.

use vstd::prelude::*;

use crate::activate::{activation_body, payment_call, request_error, ActivationRequest};
use crate::api::{
    audio_bytes, audio_part, audio_report, caller_headers, form_fields, headers_of,
    known_machine_id, machine_id, result_texts, setting, transcription, Caller,
};
use crate::call::{authorization, bearer, content_type, pairs, readable, refusal, text_at};
use crate::json::{empty_object, parsed_json, Tree};
use crate::json_text::json_text;
use crate::laws::json::lemma_with;
use crate::laws::text::{
    blank, first_behind, lacks, lemma_find_first, lemma_not_mentioned, lemma_trimmed,
    lemma_trimmed_blank, trim_free,
};
use crate::pluely::UserAudioHeader;
use crate::provider::Method;

verus! {

/// What the environment has counts, though it be empty; else what was built in;
/// else the setting is reported as missing, by its name.
pub proof fn lemma_setting(name: Seq<char>, value: Seq<char>, built_in: Option<Seq<char>>)
    ensures
        setting(name, Some(value), built_in) == Ok::<Seq<char>, Seq<char>>(value),
        setting(name, None, Some(value)) == Ok::<Seq<char>, Seq<char>>(value),
        setting(name, None, None) == Err::<Seq<char>, Seq<char>>(
            name + " environment variable not set. Please ensure it's set during the build process."@,
        ),
{
}

/// Of audio data with a comma in it, what stands behind the first comma counts,
/// as it is; of other audio data all of it. White space around it does not.
pub proof fn lemma_audio_part(
    before: Seq<char>,
    kind: Seq<char>,
    data: Seq<char>,
    after: Seq<char>,
)
    requires
        blank(before),
        blank(after),
        !kind.contains(','),
    ensures
        trim_free(kind) ==> audio_part(before + kind + after) == kind,
        trim_free(kind + seq![','] + data) ==> audio_part(
            before + (kind + seq![','] + data) + after,
        ) == data,
{
    let comma = seq![','];
    assert forall|j: int| 0 <= j <= kind.len() - comma.len() implies #[trigger] kind.subrange(
        j,
        j + comma.len(),
    ) != comma by {
        assert(kind.subrange(j, j + comma.len())[0] == kind[j]);
        assert(kind.contains(kind[j]));
    }
    lemma_not_mentioned(kind, comma);
    if trim_free(kind) {
        lemma_trimmed(before, kind, after);
    }
    let all = kind + comma + data;
    if trim_free(all) {
        lemma_trimmed(before, all, after);
        assert forall|j: int| 0 <= j < kind.len() implies #[trigger] all.subrange(
            j,
            j + comma.len(),
        ) != comma by {
            assert(all.subrange(j, j + comma.len())[0] == kind[j]);
            assert(kind.contains(kind[j]));
        }
        lemma_find_first(kind, comma, data);
        assert(all.skip(kind.len() as int + 1) =~= data);
    }
}

/// The fields of a transcription request: the model first, as it is, and then each
/// further field whose name is not white space alone, its name trimmed and its
/// value as it is, in their order.
pub proof fn lemma_form_fields(
    model: Seq<char>,
    a: Seq<UserAudioHeader>,
    b: Seq<UserAudioHeader>,
    h: UserAudioHeader,
    before: Seq<char>,
    name: Seq<char>,
    after: Seq<char>,
)
    requires
        blank(before),
        blank(after),
        trim_free(name),
        h.key@ == before + name + after,
    ensures
        form_fields(model, Seq::empty()) == seq![("model"@, model)],
        form_fields(model, seq![h]) == (if name.len() == 0 {
            seq![("model"@, model)]
        } else {
            seq![("model"@, model), (name, h.value@)]
        }),
        form_fields(model, b).len() > 0,
        form_fields(model, a + b) == form_fields(model, a) + form_fields(model, b).skip(1),
{
    reveal_with_fuel(form_fields, 2);
    lemma_trimmed(before, name, after);
    assert(seq![h].drop_last() =~= Seq::empty());
    assert(form_fields(model, seq![h]) =~= (if name.len() == 0 {
        seq![("model"@, model)]
    } else {
        seq![("model"@, model), (name, h.value@)]
    }));
    lemma_fields_concat(model, a, b);
}

proof fn lemma_fields_concat(
    model: Seq<char>,
    a: Seq<UserAudioHeader>,
    b: Seq<UserAudioHeader>,
)
    ensures
        form_fields(model, b).len() > 0,
        form_fields(model, a + b) == form_fields(model, a) + form_fields(model, b).skip(1),
    decreases b.len(),
{
    if b.len() == 0 {
        assert(a + b =~= a);
        assert(form_fields(model, b).skip(1) =~= Seq::empty());
        assert(form_fields(model, a) + form_fields(model, b).skip(1) =~= form_fields(model, a));
    } else {
        lemma_fields_concat(model, a, b.drop_last());
        assert((a + b).drop_last() =~= a + b.drop_last());
        assert(form_fields(model, a + b) =~= form_fields(model, a) + form_fields(model, b).skip(
            1,
        ));
    }
}

/// The text under a key, as it is, and none where there is no text.
pub open spec fn text_under(t: Tree, key: Seq<char>) -> Option<Seq<char>> {
    match t.get(key) {
        Some(Tree::Text(s)) => Some(s),
        _ => None,
    }
}

/// What a transcription says: the first text under `text`, `transcription` and
/// `result`, as it is and though it be empty; else the whole of the JSON, and of
/// what is no JSON the whole. One of white space alone is an error.
pub proof fn lemma_transcription(body: Seq<char>, t: Tree)
    ensures
        blank(body) ==> transcription(body, Some(t)) == Err::<Seq<char>, Seq<char>>(
            "Transcription response was empty"@,
        ) && transcription(body, None) == Err::<Seq<char>, Seq<char>>(
            "Transcription response was empty"@,
        ),
        !blank(body) ==> transcription(body, None) == Ok::<Seq<char>, Seq<char>>(body),
        !blank(body) ==> transcription(body, Some(t)) == Ok::<Seq<char>, Seq<char>>(
            if text_under(t, "text"@) is Some {
                text_under(t, "text"@)->0
            } else if text_under(t, "transcription"@) is Some {
                text_under(t, "transcription"@)->0
            } else if text_under(t, "result"@) is Some {
                text_under(t, "result"@)->0
            } else {
                json_text(t)
            },
        ),
{
    lemma_trimmed_blank(body);
}

/// What is said where audio could not be decoded or transcribed, and what came of
/// decoding where it could.
pub proof fn lemma_audio_reports(a: Seq<char>, b: Seq<char>, bytes: Seq<u8>)
    ensures
        audio_bytes(Ok(bytes)) == Ok::<Seq<u8>, Seq<char>>(bytes),
        audio_bytes(Err(a)) == Err::<Seq<u8>, Seq<char>>("Failed to decode audio data: "@ + a),
        audio_report(a, b) == "Primary: "@ + a + " | Fallback: "@ + b,
{
}

/// The machine's identifier is the one that was found, as it is; where none was, a
/// report goes without one and all else fails.
pub proof fn lemma_machine_id(id: String, reason: String)
    ensures
        machine_id(Ok(Some(id))) == Ok::<Seq<char>, Seq<char>>(id@),
        machine_id(Ok(None)) == Err::<Seq<char>, Seq<char>>("machine_uid empty"@),
        machine_id(Err(reason)) == Err::<Seq<char>, Seq<char>>("machine_uid: "@ + reason@),
        known_machine_id(Ok(Some(id))) == id@,
        known_machine_id(Ok(None)).len() == 0,
        known_machine_id(Err(reason)).len() == 0,
{
}

/// The headers that every call, and every call that names its caller, has.
pub proof fn lemma_headers(key: Seq<char>, caller: Caller, all: Vec<UserAudioHeader>)
    ensures
        bearer(key) == "Bearer "@ + key,
        content_type() == ("Content-Type"@, "application/json"@),
        authorization(key) == ("Authorization"@, "Bearer "@ + key),
        caller_headers(key, caller) == seq![
            ("Content-Type"@, "application/json"@),
            ("Authorization"@, "Bearer "@ + key),
            ("license_key"@, caller.license_key@),
            ("instance"@, caller.instance_id@),
            ("machine_id"@, caller.machine_id@),
            ("app_version"@, caller.app_version@),
        ],
        headers_of(Some(all)) == all@,
        headers_of(None).len() == 0,
{
}

/// The models of headers, of results and of what a text reads as.
pub proof fn lemma_call_models(
    headers: Seq<(String, String)>,
    i: int,
    s: String,
    text: Seq<char>,
    t: Tree,
)
    ensures
        pairs(headers).len() == headers.len(),
        0 <= i < headers.len() ==> pairs(headers)[i] == (headers[i].0@, headers[i].1@),
        result_texts(Ok(s)) == Ok::<Seq<char>, Seq<char>>(s@),
        result_texts(Err(s)) == Err::<Seq<char>, Seq<char>>(s@),
        parsed_json(text) == Ok::<Tree, Seq<char>>(t) ==> readable(text) == Some(t),
        parsed_json(text) is Err ==> readable(text) is None,
        text_at(t, text) == text_under(t, text),
{
}

/// A refused call is shown with its status and the text under the first key, or
/// else under the second, as it is, or else with its whole body.
pub proof fn lemma_refusal(
    status: Seq<char>,
    body: Seq<char>,
    t: Tree,
    first: Seq<char>,
    second: Seq<char>,
)
    ensures
        refusal(status, body, None, first, second) == "Server error ("@ + status + "): "@ + body,
        refusal(status, body, Some(t), first, second) == "Server error ("@ + status + "): "@ + (
        if text_under(t, first) is Some {
            text_under(t, first)->0
        } else if text_under(t, second) is Some {
            text_under(t, second)->0
        } else {
            body
        }),
{
}

/// A failed request is shown without the address that it names: up to the first
/// ` for url (`, and whole where there is none.
pub proof fn lemma_request_error(a: Seq<char>, b: Seq<char>)
    ensures
        first_behind(a, " for url ("@, b) ==> request_error(a + " for url ("@ + b)
            == "Failed to make chat request: "@ + a,
        lacks(a, " for url ("@) ==> request_error(a) == "Failed to make chat request: "@ + a,
{
    if first_behind(a, " for url ("@, b) {
        lemma_find_first(a, " for url ("@, b);
        assert((a + " for url ("@ + b).take(a.len() as int) =~= a);
    }
    lemma_not_mentioned(a, " for url ("@);
}

/// An activation says each thing under its own key, as it is, and goes to the
/// service's address with the path behind it.
pub proof fn lemma_activation(
    request: ActivationRequest,
    endpoint: Seq<char>,
    key: Seq<char>,
    path: Seq<char>,
    body: Tree,
)
    ensures
        activation_body(request).get("license_key"@) == Some(Tree::Text(request.license_key@)),
        activation_body(request).get("instance_name"@) == Some(Tree::Text(request.instance_name@)),
        activation_body(request).get("machine_id"@) == Some(Tree::Text(request.machine_id@)),
        activation_body(request).get("app_version"@) == Some(Tree::Text(request.app_version@)),
        payment_call(endpoint, key, path, body).method == Method::Post,
        payment_call(endpoint, key, path, body).url == endpoint + path,
        payment_call(endpoint, key, path, body).body == Some(body),
        payment_call(endpoint, key, path, body).headers == seq![
            ("Content-Type"@, "application/json"@),
            ("Authorization"@, "Bearer "@ + key),
        ],
{
    reveal_strlit("license_key");
    reveal_strlit("instance_name");
    reveal_strlit("machine_id");
    reveal_strlit("app_version");
    assert("license_key"@.len() == 11 && "instance_name"@.len() == 13 && "machine_id"@.len() == 10
        && "app_version"@.len() == 11);
    assert("license_key"@[0] != "app_version"@[0]);
    let a = empty_object().with("license_key"@, Tree::Text(request.license_key@));
    let b = a.with("instance_name"@, Tree::Text(request.instance_name@));
    let c = b.with("machine_id"@, Tree::Text(request.machine_id@));
    let version = Tree::Text(request.app_version@);
    lemma_with(
        empty_object(),
        "license_key"@,
        Tree::Text(request.license_key@),
        "machine_id"@,
    );
    lemma_with(a, "instance_name"@, Tree::Text(request.instance_name@), "license_key"@);
    lemma_with(b, "machine_id"@, Tree::Text(request.machine_id@), "license_key"@);
    lemma_with(b, "machine_id"@, Tree::Text(request.machine_id@), "instance_name"@);
    lemma_with(c, "app_version"@, version, "license_key"@);
    lemma_with(c, "app_version"@, version, "instance_name"@);
    lemma_with(c, "app_version"@, version, "machine_id"@);
}

} // verus!
