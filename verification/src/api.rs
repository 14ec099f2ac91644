//! The service's endpoints beside the chat: transcription and the catalogues.

use vstd::prelude::*;

use crate::bytes::{decode_base64, decoded_base64, decoded_view};
use crate::call::{
    authorization, content_type, get_text, header, make_authorization, make_content_type, pairs,
    read_json, readable, text_at, Call, HttpCall,
};
use crate::json::{empty_object, optional_tree, well_formed, Json, Tree};
use crate::json_text::json_text;
use crate::pluely::{Model, UserAudioConfig, UserAudioHeader};
use crate::provider::Method;
use crate::text::{
    chars_of, find, find_chars, optional, slice_text, trim, trim_end_of, trimmed, trimmed_end_of,
};

verus! {

/// The answer to a transcription.
#[derive(Debug)]
pub struct AudioResponse {
    pub success: bool,
    pub transcription: Option<String>,
    pub error: Option<String>,
}

/// The models that the service offers.
#[derive(Debug)]
pub struct ModelsResponse {
    pub models: Vec<Model>,
}

/// A system prompt that the service wrote.
#[derive(Debug)]
pub struct SystemPromptResponse {
    pub prompt_name: String,
    pub system_prompt: String,
}

/// A prompt that the service offers.
#[derive(Debug)]
pub struct PluelyPrompt {
    pub title: String,
    pub prompt: String,
    pub model_id: String,
    pub model_name: String,
}

/// The prompts that the service offers.
#[derive(Debug)]
pub struct PluelyPromptsResponse {
    pub prompts: Vec<PluelyPrompt>,
    pub total: i32,
    pub last_updated: Option<String>,
}

/// A setting: what the environment has, or else what was built in.
pub open spec fn setting(
    name: Seq<char>,
    runtime: Option<Seq<char>>,
    built_in: Option<Seq<char>>,
) -> Result<Seq<char>, Seq<char>> {
    match runtime {
        Some(value) => Ok(value),
        None => match built_in {
            Some(value) => Ok(value),
            None => Err(
                name
                    + " environment variable not set. Please ensure it's set during the build process."@,
            ),
        },
    }
}

/// The model of a result of texts.
pub open spec fn result_texts(r: Result<String, String>) -> Result<Seq<char>, Seq<char>> {
    match r {
        Ok(s) => Ok(s@),
        Err(s) => Err(s@),
    }
}

pub(crate) fn resolve(name: &str, runtime: Option<String>, built_in: Option<String>) -> (r: Result<
    String,
    String,
>)
    ensures
        result_texts(r) == setting(name@, optional(runtime), optional(built_in)),
{
    match runtime {
        Some(value) => Ok(value),
        None => match built_in {
            Some(value) => Ok(value),
            None => Err(
                name.to_owned().concat(
                    " environment variable not set. Please ensure it's set during the build process.",
                ),
            ),
        },
    }
}

/// The address of the service.
pub fn get_app_endpoint(runtime: Option<String>, built_in: Option<String>) -> (r: Result<
    String,
    String,
>)
    ensures
        result_texts(r) == setting("APP_ENDPOINT"@, optional(runtime), optional(built_in)),
{
    resolve("APP_ENDPOINT", runtime, built_in)
}

/// The key that the service asks for.
pub fn get_api_access_key(runtime: Option<String>, built_in: Option<String>) -> (r: Result<
    String,
    String,
>)
    ensures
        result_texts(r) == setting("API_ACCESS_KEY"@, optional(runtime), optional(built_in)),
{
    resolve("API_ACCESS_KEY", runtime, built_in)
}

/// The base-64 part of audio data: what stands behind the first comma of the
/// trimmed text, or all of it.
pub open spec fn audio_part(text: Seq<char>) -> Seq<char> {
    let t = trimmed(text);
    match find(t, seq![',']) {
        Some(i) => t.skip(i + 1),
        None => t,
    }
}

/// What decoding audio data gives, given what the decoder made of it.
pub open spec fn audio_bytes(decoded: Result<Seq<u8>, Seq<char>>) -> Result<Seq<u8>, Seq<char>> {
    match decoded {
        Ok(bytes) => Ok(bytes),
        Err(message) => Err("Failed to decode audio data: "@ + message),
    }
}

/// The base-64 part of audio data.
pub fn base64_part(text: &str) -> (r: String)
    ensures
        r@ == audio_part(text@),
{
    let t = trim(text);
    let v = chars_of(t.as_str());
    let n: usize = v.len();
    let comma: Vec<char> = vec![','];
    assert(comma@ == seq![',']);
    match find_chars(&v, &comma, 0) {
        Some(i) => {
            assert(v@.skip(i + 1) =~= v@.subrange(i + 1, n as int));
            slice_text(&v, i + 1, n)
        },
        None => t,
    }
}

/// The bytes of audio data, with the decoder's error explained.
pub fn explain_decoded(decoded: Result<Vec<u8>, String>) -> (r: Result<Vec<u8>, String>)
    ensures
        decoded_view(r) == audio_bytes(decoded_view(decoded)),
{
    match decoded {
        Ok(bytes) => Ok(bytes),
        Err(message) => Err("Failed to decode audio data: ".to_owned().concat(message.as_str())),
    }
}

/// The bytes of audio data, which may be a data URL.
pub fn decode_audio_base64(audio_base64: &str) -> (r: Result<Vec<u8>, String>)
    ensures
        decoded_view(r) == audio_bytes(decoded_base64(audio_part(audio_base64@))),
{
    let part = base64_part(audio_base64);
    explain_decoded(decode_base64(part.as_str()))
}

/// The text fields of a transcription request behind the audio: the model, and
/// the further fields whose names are not blank.
pub open spec fn form_fields(model: Seq<char>, headers: Seq<UserAudioHeader>) -> Seq<
    (Seq<char>, Seq<char>),
>
    decreases headers.len(),
{
    if headers.len() == 0 {
        seq![("model"@, model)]
    } else {
        let before = form_fields(model, headers.drop_last());
        let key = trimmed(headers.last().key@);
        if key.len() == 0 {
            before
        } else {
            before.push((key, headers.last().value@))
        }
    }
}

/// The further fields, if there are any.
pub open spec fn headers_of(headers: Option<Vec<UserAudioHeader>>) -> Seq<UserAudioHeader> {
    match headers {
        Some(headers) => headers@,
        None => Seq::empty(),
    }
}

/// The text fields of a transcription request.
pub fn transcription_fields(model: &str, headers: &Option<Vec<UserAudioHeader>>) -> (r: Vec<
    (String, String),
>)
    ensures
        pairs(r@) == form_fields(model@, headers_of(*headers)),
{
    let mut out: Vec<(String, String)> = vec![header("model", model)];
    assert(pairs(out@) =~= seq![("model"@, model@)]);
    if let Some(headers) = headers {
        let mut i: usize = 0;
        assert(headers@.take(0) =~= Seq::empty());
        while i < headers.len()
            invariant
                i <= headers@.len(),
                pairs(out@) == form_fields(model@, headers@.take(i as int)),
            decreases headers@.len() - i,
        {
            let ghost now = headers@.take(i + 1);
            assert(now.drop_last() =~= headers@.take(i as int));
            let key = trim(headers[i].key.as_str());
            if !key.as_str().is_empty() {
                let ghost was = out@;
                let pair = (key, headers[i].value.clone());
                out.push(pair);
                assert(pairs(out@) =~= pairs(was).push((pair.0@, pair.1@)));
            }
            i = i + 1;
        }
        assert(headers@.take(i as int) =~= headers@);
    }
    out
}

/// The transcription in a response, given what reading its body gave: the text
/// under `text`, `transcription` or `result`, or else the whole JSON, or else the
/// body.
pub open spec fn transcription(body: Seq<char>, read: Option<Tree>) -> Result<
    Seq<char>,
    Seq<char>,
> {
    if trimmed(body).len() == 0 {
        Err("Transcription response was empty"@)
    } else {
        match read {
            Some(t) => match text_at(t, "text"@) {
                Some(s) => Ok(s),
                None => match text_at(t, "transcription"@) {
                    Some(s) => Ok(s),
                    None => match text_at(t, "result"@) {
                        Some(s) => Ok(s),
                        None => Ok(json_text(t)),
                    },
                },
            },
            None => Ok(body),
        }
    }
}

/// The transcription in a response, given what reading its body gave.
pub fn choose_transcription(body: &str, read: &Option<Json>) -> (r: Result<String, String>)
    requires
        read matches Some(v) ==> v@.wf(),
    ensures
        result_texts(r) == transcription(body@, optional_tree(*read)),
{
    if trim(body).as_str().is_empty() {
        return Err("Transcription response was empty".to_owned());
    }
    match read {
        Some(value) => match get_text(value, "text") {
            Some(s) => Ok(s),
            None => match get_text(value, "transcription") {
                Some(s) => Ok(s),
                None => match get_text(value, "result") {
                    Some(s) => Ok(s),
                    None => Ok(value.to_text()),
                },
            },
        },
        None => Ok(body.to_owned()),
    }
}

/// The transcription in the body of a response.
pub fn parse_transcription(body: &str) -> (r: Result<String, String>)
    ensures
        result_texts(r) == transcription(body@, readable(body@)),
{
    let read = read_json(body);
    choose_transcription(body, &read)
}

/// What a refused transcription request says.
pub fn transcription_refusal(status: &str, body: &str) -> (r: String)
    ensures
        r@ == "Transcription request returned "@ + status@ + " with body: "@ + body@,
{
    "Transcription request returned ".to_owned().concat(status).concat(" with body: ").concat(body)
}

/// Where to have audio transcribed.
#[derive(Debug)]
pub struct Target {
    pub url: String,
    pub token: String,
    pub model: String,
}

/// How to have audio transcribed; an error where the service configured nothing.
pub fn require_audio(config: &Option<UserAudioConfig>) -> (r: Result<&UserAudioConfig, String>)
    ensures
        match (config, r) {
            (Some(c), Ok(found)) => *found == *c,
            (None, Err(message)) => message@
                == "Audio transcription is not configured for this workspace. Please contact support."@,
            _ => false,
        },
{
    match config {
        Some(c) => Ok(c),
        None => Err(
            "Audio transcription is not configured for this workspace. Please contact support.".to_owned(),
        ),
    }
}

/// The first place to have audio transcribed.
pub fn primary_target(config: &UserAudioConfig) -> (r: Target)
    ensures
        r.url@ == config.url@,
        r.token@ == config.user_token@,
        r.model@ == config.model@,
{
    Target {
        url: config.url.clone(),
        token: config.user_token.clone(),
        model: config.model.clone(),
    }
}

/// What to do after an attempt to transcribe.
#[derive(Debug)]
pub enum AudioTurn {
    /// Answer the request.
    Done(AudioResponse),
    /// Try again elsewhere, and remember how the first attempt failed.
    Again { target: Target, primary_error: String },
    /// Report the failure to the service, and answer with `returned`.
    Fail { report: String, returned: String },
}

/// What is reported where no attempt succeeded.
pub open spec fn audio_report(primary: Seq<char>, fallback: Seq<char>) -> Seq<char> {
    "Primary: "@ + primary + " | Fallback: "@ + fallback
}

fn fail_audio(primary: &str, fallback: &str) -> (r: AudioTurn)
    ensures
        r matches AudioTurn::Fail { report, returned } && report@ == audio_report(
            primary@,
            fallback@,
        ) && returned@ == "Transcription failed. Please try again."@,
{
    AudioTurn::Fail {
        report: "Primary: ".to_owned().concat(primary).concat(" | Fallback: ").concat(fallback),
        returned: "Transcription failed. Please try again.".to_owned(),
    }
}

/// Decides after an attempt to transcribe, the first one if `primary_error` is
/// none: what was transcribed is the answer; a first attempt that failed is
/// followed by one at the fallback, if address and token of one are configured.
pub fn after_attempt(
    config: &UserAudioConfig,
    primary_error: Option<String>,
    attempt: Result<String, String>,
) -> (r: AudioTurn)
    ensures
        match attempt {
            Ok(text) => r matches AudioTurn::Done(response) && response.success
                && response.error is None && optional(response.transcription) == Some(text@),
            Err(e) => match primary_error {
                Some(primary) => r matches AudioTurn::Fail { report, returned } && report@
                    == audio_report(primary@, e@) && returned@
                    == "Transcription failed. Please try again."@,
                None => if config.fallback_url is Some && config.fallback_user_token is Some {
                    r matches AudioTurn::Again { target, primary_error: remembered }
                        && remembered@ == e@ && target.url@ == config.fallback_url->0@
                        && target.token@ == config.fallback_user_token->0@ && target.model@ == (
                    match config.fallback_model {
                        Some(model) => model@,
                        None => config.model@,
                    })
                } else {
                    r matches AudioTurn::Fail { report, returned } && report@ == audio_report(
                        e@,
                        "fallback not configured"@,
                    ) && returned@ == "Transcription failed. Please try again."@
                },
            },
        },
{
    let e = match attempt {
        Ok(text) => return AudioTurn::Done(
            AudioResponse { success: true, transcription: Some(text), error: None },
        ),
        Err(e) => e,
    };
    if let Some(primary) = primary_error {
        return fail_audio(primary.as_str(), e.as_str());
    }
    match (&config.fallback_url, &config.fallback_user_token) {
        (Some(url), Some(token)) => {
            let model = match &config.fallback_model {
                Some(model) => model.clone(),
                None => config.model.clone(),
            };
            AudioTurn::Again {
                target: Target { url: url.clone(), token: token.clone(), model },
                primary_error: e,
            }
        },
        _ => fail_audio(e.as_str(), "fallback not configured"),
    }
}

/// The stored part of a licence, where one is needed.
pub fn require_license(found: Option<String>) -> (r: Result<String, String>)
    ensures
        result_texts(r) == (match found {
            Some(value) => Ok::<Seq<char>, Seq<char>>(value@),
            None => Err("No license found. Please activate your license first."@),
        }),
{
    match found {
        Some(value) => Ok(value),
        None => Err("No license found. Please activate your license first.".to_owned()),
    }
}

/// What asking for the machine's identifier gave: maybe none, or an error.
pub open spec fn machine_id(found: Result<Option<String>, String>) -> Result<Seq<char>, Seq<char>> {
    match found {
        Ok(Some(id)) => Ok(id@),
        Ok(None) => Err("machine_uid empty"@),
        Err(e) => Err("machine_uid: "@ + e@),
    }
}

/// The machine's identifier, where one is needed.
pub fn require_machine_id(found: Result<Option<String>, String>) -> (r: Result<String, String>)
    ensures
        result_texts(r) == machine_id(found),
{
    match found {
        Ok(Some(id)) => Ok(id),
        Ok(None) => Err("machine_uid empty".to_owned()),
        Err(e) => Err("machine_uid: ".to_owned().concat(e.as_str())),
    }
}

/// The machine's identifier; an empty text where there is none.
pub open spec fn known_machine_id(found: Result<Option<String>, String>) -> Seq<char> {
    match found {
        Ok(Some(id)) => id@,
        _ => Seq::empty(),
    }
}

/// The machine's identifier, or an empty text.
pub fn machine_id_or_empty(found: Result<Option<String>, String>) -> (r: String)
    ensures
        r@ == known_machine_id(found),
{
    match found {
        Ok(Some(id)) => id,
        _ => String::new(),
    }
}

/// Who calls: the licence, the machine and the version of the program.
#[derive(Debug)]
pub struct Caller {
    pub license_key: String,
    pub instance_id: String,
    pub machine_id: String,
    pub app_version: String,
}

/// The headers of a call that names its caller.
pub open spec fn caller_headers(key: Seq<char>, caller: Caller) -> Seq<(Seq<char>, Seq<char>)> {
    seq![
        content_type(),
        authorization(key),
        ("license_key"@, caller.license_key@),
        ("instance"@, caller.instance_id@),
        ("machine_id"@, caller.machine_id@),
        ("app_version"@, caller.app_version@),
    ]
}

fn make_caller_headers(key: &str, caller: &Caller) -> (r: Vec<(String, String)>)
    ensures
        pairs(r@) == caller_headers(key@, *caller),
{
    let r: Vec<(String, String)> = vec![
        make_content_type(),
        make_authorization(key),
        header("license_key", caller.license_key.as_str()),
        header("instance", caller.instance_id.as_str()),
        header("machine_id", caller.machine_id.as_str()),
        header("app_version", caller.app_version.as_str()),
    ];
    assert(pairs(r@) =~= caller_headers(key@, *caller));
    r
}

/// The call for the models that the service offers.
pub fn models_call(endpoint: &str, key: &str, caller: &Caller) -> (r: HttpCall)
    ensures
        r@ == (Call {
            method: Method::Post,
            url: endpoint@ + "/api/models"@,
            headers: caller_headers(key@, *caller),
            body: None,
        }),
{
    HttpCall {
        method: Method::Post,
        url: endpoint.to_owned().concat("/api/models"),
        headers: make_caller_headers(key, caller),
        body: None,
    }
}

/// The call for the prompts that the service offers.
pub fn prompts_call(endpoint: &str, key: &str) -> (r: HttpCall)
    ensures
        r@ == (Call {
            method: Method::Post,
            url: endpoint@ + "/api/prompts"@,
            headers: seq![content_type(), authorization(key@)],
            body: None,
        }),
{
    let headers: Vec<(String, String)> = vec![make_content_type(), make_authorization(key)];
    assert(pairs(headers@) =~= seq![content_type(), authorization(key@)]);
    HttpCall {
        method: Method::Post,
        url: endpoint.to_owned().concat("/api/prompts"),
        headers,
        body: None,
    }
}

/// The call that has a system prompt written.
pub fn system_prompt_call(endpoint: &str, key: &str, caller: &Caller, user_prompt: &str) -> (r:
    HttpCall)
    ensures
        r@ == (Call {
            method: Method::Post,
            url: endpoint@ + "/api/prompt"@,
            headers: caller_headers(key@, *caller),
            body: Some(empty_object().with("user_prompt"@, Tree::Text(user_prompt@))),
        }),
        well_formed(r.body),
{
    HttpCall {
        method: Method::Post,
        url: endpoint.to_owned().concat("/api/prompt"),
        headers: make_caller_headers(key, caller),
        body: Some(Json::object().with("user_prompt", Json::text(user_prompt))),
    }
}

/// The call for the activity of a licence; none without the machine's
/// identifier.
pub fn activity_call(endpoint: &str, key: &str, caller: &Caller) -> (r: Result<HttpCall, String>)
    ensures
        match r {
            Ok(call) => caller.machine_id@.len() > 0 && call@ == (Call {
                method: Method::Get,
                url: trimmed_end_of(endpoint@, '/') + "/api/activity"@,
                headers: seq![
                    authorization(key@),
                    ("license_key"@, caller.license_key@),
                    ("instance_name"@, caller.instance_id@),
                    ("machine_id"@, caller.machine_id@),
                    ("app_version"@, caller.app_version@),
                ],
                body: None,
            }),
            Err(message) => caller.machine_id@.len() == 0 && message@
                == "Machine identifier unavailable"@,
        },
{
    if caller.machine_id.as_str().is_empty() {
        return Err("Machine identifier unavailable".to_owned());
    }
    let headers: Vec<(String, String)> = vec![
        make_authorization(key),
        header("license_key", caller.license_key.as_str()),
        header("instance_name", caller.instance_id.as_str()),
        header("machine_id", caller.machine_id.as_str()),
        header("app_version", caller.app_version.as_str()),
    ];
    assert(pairs(headers@) =~= seq![
        authorization(key@),
        ("license_key"@, caller.license_key@),
        ("instance_name"@, caller.instance_id@),
        ("machine_id"@, caller.machine_id@),
        ("app_version"@, caller.app_version@),
    ]);
    Ok(
        HttpCall {
            method: Method::Get,
            url: trim_end_of(endpoint, '/').concat("/api/activity"),
            headers,
            body: None,
        },
    )
}

} // verus!
