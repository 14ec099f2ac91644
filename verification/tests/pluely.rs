use pluely::commands::{ProviderInput, StreamChatRequest};
use pluely::json::Json;
use pluely::llm::LlmError;
use pluely::messages::HistoryMessage;
use pluely::pluely::{
    activity_report, build_chat_body, chat_call, chat_error, chat_failed, chat_refused, config_call,
    config_refused, error_report, map_api_error_message, refused_with, selected_names,
    transcription_error,
    ApiConfigError, ApiError, ApiResponseConfig, Model,
};
use pluely::provider::Method;
use pluely::schema::{AttachedFile, Role};
use pluely::stream::StreamOutcome;
use pluely::string_map::StringMap;

const GENERAL: &str =
    "Something went wrong. Please try switching to a different model or contact support.";

fn rule(includes: &str, error: &str) -> ApiConfigError {
    ApiConfigError {
        includes: includes.to_string(),
        error: error.to_string(),
    }
}

fn pairs(call: &[(String, String)]) -> Vec<(&str, &str)> {
    call.iter().map(|(k, v)| (k.as_str(), v.as_str())).collect()
}

fn model() -> Model {
    Model {
        provider: "prov".to_string(),
        name: "n".to_string(),
        id: "i".to_string(),
        model: "mod".to_string(),
        description: String::new(),
        modality: String::new(),
        is_available: true,
    }
}

fn config(body: &str, errors: Option<Vec<ApiConfigError>>) -> ApiResponseConfig {
    ApiResponseConfig {
        url: "https://chat".to_string(),
        user_token: "tok".to_string(),
        model: "gpt".to_string(),
        body: body.to_string(),
        customer_id: None,
        customer_email: None,
        customer_name: None,
        user_audio: None,
        errors,
    }
}

fn request(system_prompt: Option<&str>) -> StreamChatRequest {
    StreamChatRequest {
        provider: ProviderInput {
            id: String::new(),
            curl: String::new(),
            response_content_path: String::new(),
            streaming: true,
            is_pluely_hosted: true,
            user_variables: StringMap::new(),
        },
        message: "hi".to_string(),
        system_prompt: system_prompt.map(String::from),
        history: vec![HistoryMessage {
            role: Role::Assistant,
            content: "old".to_string(),
        }],
        attached_files: vec![
            AttachedFile {
                name: "a".to_string(),
                mime: "image/png".to_string(),
                base64: "QUJD".to_string(),
            },
            AttachedFile {
                name: "b".to_string(),
                mime: "application/pdf".to_string(),
                base64: "x".to_string(),
            },
        ],
        request_id: "r".to_string(),
    }
}

#[test]
fn no_rules_give_the_general_text() {
    assert_eq!(map_api_error_message(&[], &["boom".to_string()]), GENERAL);
}

#[test]
fn sources_come_before_rules() {
    let rules = [rule("B", "b"), rule("A", "a"), rule(" ", "default")];
    let map = |s: &[&str]| {
        let sources: Vec<String> = s.iter().map(|t| t.to_string()).collect();
        map_api_error_message(&rules, &sources)
    };
    assert_eq!(map(&["xAx", "B"]), "a");
    assert_eq!(map(&["AB"]), "b");
    assert_eq!(map(&["none"]), "default");
    assert_eq!(map(&["a b"]), "default");
    assert_eq!(map(&["A", "B A"]), "a");
}

#[test]
fn a_blank_rule_may_match_a_source() {
    let rules = [rule("x", "first"), rule(" ", "blank"), rule("", "empty")];
    assert_eq!(map_api_error_message(&rules, &["a b".to_string()]), "blank");
    assert_eq!(map_api_error_message(&rules, &["ab".to_string()]), "blank");
    assert_eq!(map_api_error_message(&[rule("x", "first")], &[]), "first");
}

#[test]
fn a_hosted_chat_is_put_together() {
    let call = chat_call(&config(r#"{"stream":false,"top":1}"#, None), &request(Some("sys")));
    assert_eq!(call.method, Method::Post);
    assert_eq!(call.url, "https://chat");
    assert_eq!(
        pairs(&call.headers),
        vec![("Content-Type", "application/json"), ("Authorization", "Bearer tok")]
    );
    assert_eq!(
        call.body.unwrap().to_text(),
        r#"{"messages":[{"content":"sys","role":"system"},{"content":[{"text":"old","type":"text"}],"role":"assistant"},{"content":[{"text":"hi","type":"text"},{"image_url":{"url":"data:image/png;base64,QUJD"},"type":"image_url"}],"role":"user"}],"model":"gpt","stream":false,"top":1}"#
    );
}

#[test]
fn an_extra_part_that_is_no_object_counts_for_nothing() {
    let plain = chat_call(&config("", None), &request(Some(""))).body.unwrap().to_text();
    assert!(plain.ends_with(r#""model":"gpt","stream":true}"#));
    assert!(!plain.contains("system"));
    for body in ["[1]", "{", "null"] {
        let text = chat_call(&config(body, None), &request(None)).body.unwrap().to_text();
        assert_eq!(text, plain);
    }
    assert_eq!(
        build_chat_body("gpt", &request(None), &Some(Json::Null)).to_text(),
        plain
    );
}

#[test]
fn the_configuration_is_asked_for() {
    let call = config_call("https://s", "key", "mid", &Some("p".to_string()), &None);
    assert_eq!(call.method, Method::Get);
    assert_eq!(call.url, "https://s/api/response");
    assert_eq!(
        pairs(&call.headers),
        vec![
            ("Content-Type", "application/json"),
            ("Authorization", "Bearer key"),
            ("machine_id", "mid"),
            ("provider", "p"),
        ]
    );
    let call = config_call("https://s", "key", "mid", &None, &Some("m".to_string()));
    assert_eq!(pairs(&call.headers)[3], ("model", "m"));
    assert_eq!(
        config_refused("401 Unauthorized", r#"{"message":"no","error":"why"}"#).to_string(),
        "pluely config: Server error (401 Unauthorized): why"
    );
}

#[test]
fn the_selected_model_names_two_things() {
    assert_eq!(selected_names(&None), (None, None));
    assert_eq!(
        selected_names(&Some(model())),
        (Some("prov".to_string()), Some("mod".to_string()))
    );
}

#[test]
fn reported_errors_name_their_endpoint() {
    let model = Some("m".to_string());
    let e = chat_error("boom", &model, &None);
    assert_eq!((e.message.as_str(), e.endpoint_path.as_str()), ("boom", "/api/chat"));
    assert_eq!((e.model, e.provider), (model.clone(), None));
    let e = transcription_error("boom", &None, &model);
    assert_eq!((e.message.as_str(), e.endpoint_path.as_str()), ("boom", "/api/transcribe"));
    assert_eq!((e.model, e.provider), (None, model));
}

#[test]
fn errors_are_reported() {
    let error = ApiError {
        message: "boom".to_string(),
        endpoint_path: "/api/chat".to_string(),
        model: Some("given".to_string()),
        provider: None,
    };
    assert!(error_report("https://s", "k", "", "1.0", &error, &None).is_none());
    let call = error_report("https://s//", "k", "mid", "1.0", &error, &Some(model())).unwrap();
    assert_eq!(call.method, Method::Post);
    assert_eq!(call.url, "https://s/api/error");
    assert_eq!(
        pairs(&call.headers),
        vec![("Authorization", "Bearer k"), ("Content-Type", "application/json")]
    );
    assert_eq!(
        call.body.unwrap().to_text(),
        r#"{"app_version":"1.0","endpoint":"/api/chat","error_message":"boom","machine_id":"mid","model":"given","provider":"prov"}"#
    );
    let call = error_report("https://s", "k", "mid", "1.0", &error, &None).unwrap();
    assert!(call.body.unwrap().to_text().ends_with(r#""provider":""}"#));
}

#[test]
fn answered_chats_are_reported() {
    let outcome = StreamOutcome {
        full_response: "x".to_string(),
        usage: Some(Json::text("u")),
    };
    let call = activity_report("https://s/", "k", "mid", "1.0", &outcome, &None, "gpt").unwrap();
    assert_eq!(call.url, "https://s/api/activity");
    assert_eq!(
        call.body.unwrap().to_text(),
        r#"{"ai_model":"gpt","app_version":"1.0","machine_id":"mid","usage":"u"}"#
    );
    let call =
        activity_report("https://s/", "k", "mid", "1.0", &outcome, &Some(model()), "gpt").unwrap();
    assert!(call.body.unwrap().to_text().starts_with(r#"{"ai_model":"mod""#));
    assert!(activity_report("https://s", "k", "", "1.0", &outcome, &None, "gpt").is_none());
    let empty = StreamOutcome { full_response: String::new(), usage: None };
    assert!(activity_report("https://s", "k", "mid", "1.0", &empty, &None, "gpt").is_none());
}

#[test]
fn a_lost_connection_is_shown_by_the_rules() {
    let errors = Some(vec![rule("timed out", "Too slow"), rule("", "Odd")]);
    let f = chat_failed(&errors, LlmError::Reqwest("it timed out".to_string()));
    assert_eq!(f.error, LlmError::PluelyConfig("Too slow".to_string()));
    assert_eq!(f.report, Some("it timed out".to_string()));
    let f = chat_failed(&errors, LlmError::Cancelled);
    assert_eq!(f.error, LlmError::Cancelled);
    assert_eq!(f.report, None);
    let f = chat_failed(&None, LlmError::Reqwest("x".to_string()));
    assert_eq!(f.error, LlmError::PluelyConfig(GENERAL.to_string()));
}

#[test]
fn a_refusal_is_shown_by_the_rules() {
    let errors = Some(vec![rule("429", "Busy"), rule("quota", "Spent"), rule("", "Odd")]);
    let f = chat_refused(&errors, "429 Too Many Requests", r#"{"error":"quota gone"}"#);
    assert_eq!(f.error, LlmError::PluelyConfig("Spent".to_string()));
    assert_eq!(
        f.report,
        Some(r#"429 Too Many Requests: {"error":"quota gone"}"#.to_string())
    );
    let f = chat_refused(&errors, "429 Too Many Requests", "later");
    assert_eq!(f.error, LlmError::PluelyConfig("Busy".to_string()));
    let escaped = r#"{"message":"qu\u006fta"}"#;
    let f = chat_refused(&errors, "500", escaped);
    assert_eq!(f.error, LlmError::PluelyConfig("Spent".to_string()));
    let f = refused_with(&errors, "500", escaped, &None);
    assert_eq!(f.error, LlmError::PluelyConfig("Odd".to_string()));
}
