use pluely::commands::{ProviderInput, StreamChatRequest};
use pluely::json::Json;
use pluely::llm::{LlmError, StreamEvent};
use pluely::messages::HistoryMessage;
use pluely::provider::{
    ask_for_stream, check_status, merge_variables, missing_variable, parse_method, plan_custom,
    plan_request, plan_with, sent_headers, whole_answer, Method,
};
use pluely::schema::Role;
use pluely::string_map::StringMap;

fn vars(pairs: &[(&str, &str)]) -> StringMap<String> {
    let mut m: StringMap<String> = StringMap::new();
    for (k, v) in pairs {
        m.insert(k.to_string(), v.to_string());
    }
    m
}

fn request(curl: &str, streaming: bool, user: &[(&str, &str)]) -> StreamChatRequest {
    StreamChatRequest {
        provider: ProviderInput {
            id: "p".to_string(),
            curl: curl.to_string(),
            response_content_path: "a".to_string(),
            streaming,
            is_pluely_hosted: false,
            user_variables: vars(user),
        },
        message: "hi {{MODEL}}".to_string(),
        system_prompt: Some("be {{KIND}}".to_string()),
        history: vec![HistoryMessage {
            role: Role::Assistant,
            content: "before".to_string(),
        }],
        attached_files: Vec::new(),
        request_id: "r".to_string(),
    }
}

fn get<'a>(m: &'a StringMap<String>, k: &str) -> Option<&'a str> {
    m.get(k).map(String::as_str)
}

#[test]
fn secrets_win_over_user_variables() {
    let merged = merge_variables(
        &vars(&[("api_key", "user"), ("model", "m"), ("system_prompt", "u")]),
        &vars(&[("API_KEY", "secret"), ("SYSTEM_PROMPT", "s")]),
        &Some("prompt".to_string()),
    );
    assert_eq!(
        merged.sorted_keys(),
        vec!["API_KEY".to_string(), "MODEL".to_string(), "SYSTEM_PROMPT".to_string()]
    );
    assert_eq!(get(&merged, "API_KEY"), Some("secret"));
    assert_eq!(get(&merged, "MODEL"), Some("m"));
    assert_eq!(get(&merged, "SYSTEM_PROMPT"), Some("prompt"));
    let bare = merge_variables(&vars(&[]), &vars(&[]), &None);
    assert_eq!(get(&bare, "SYSTEM_PROMPT"), Some(""));
}

#[test]
fn two_spellings_of_a_name_give_one_of_their_values() {
    let merged = merge_variables(&vars(&[("a", "1"), ("A", "2")]), &vars(&[]), &None);
    assert!(matches!(get(&merged, "A"), Some("1") | Some("2")));
}

#[test]
fn reserved_names_need_no_value() {
    let template = "{{TEXT}}{{IMAGE}}{{IMAGE_MIME}}{{AUDIO}}{{DOCUMENT}}{{SYSTEM_PROMPT}}{{A}}{{B}}";
    assert_eq!(missing_variable(template, &vars(&[("B", "x")])), Some("A".to_string()));
    assert_eq!(
        missing_variable(template, &vars(&[("A", "x"), ("B", " \t\n")])),
        Some("B".to_string())
    );
    assert_eq!(missing_variable(template, &vars(&[("A", "x"), ("B", "y")])), None);
}

#[test]
fn a_whole_request_is_planned() {
    let curl = "curl -X post https://x/{{MODEL}} -H 'Authorization: Bearer {{KEY}}' -d '{\"messages\":[{\"role\":\"system\",\"content\":\"{{SYSTEM_PROMPT}}\"},{\"role\":\"user\",\"content\":\"{{TEXT}}\"}],\"Stream\":false}'";
    let plan = plan_request(
        &request(curl, true, &[("model", "gpt")]),
        &vars(&[("KEY", "k")]),
    )
    .unwrap();
    assert_eq!(plan.method, Method::Post);
    assert_eq!(plan.url, "https://x/gpt");
    assert_eq!(get(&plan.headers, "Authorization"), Some("Bearer k"));
    assert_eq!(
        sent_headers(&plan),
        vec![
            ("Authorization".to_string(), "Bearer k".to_string()),
            ("Content-Type".to_string(), "application/json".to_string()),
        ]
    );
    assert_eq!(
        plan.body.unwrap().to_text(),
        r#"{"Stream":true,"messages":[{"content":"be {{KIND}}","role":"system"},{"content":"before","role":"assistant"},{"content":"hi gpt","role":"user"}]}"#
    );
}

#[test]
fn a_get_request_has_no_body() {
    let plan = plan_request(&request("curl http://x", true, &[]), &vars(&[])).unwrap();
    assert_eq!(plan.method, Method::Get);
    assert!(plan.body.is_none());
}

#[test]
fn without_a_body_an_object_is_sent() {
    let r = request("curl -X PUT http://x", true, &[]);
    let plan = plan_request(&r, &vars(&[])).unwrap();
    assert_eq!(plan.body.unwrap().to_text(), r#"{"stream":true}"#);
    let r = request("curl -X DELETE http://x", false, &[]);
    assert_eq!(plan_request(&r, &vars(&[])).unwrap().body.unwrap().to_text(), "{}");
}

#[test]
fn planning_fails_in_order() {
    let bad = request("curl 'x", false, &[]);
    assert_eq!(
        plan_request(&bad, &vars(&[])).unwrap_err(),
        LlmError::InvalidCurl("unterminated quote")
    );
    let r = request("curl -X FLY http://{{HOST}}", false, &[]);
    assert_eq!(
        plan_request(&r, &vars(&[])).unwrap_err(),
        LlmError::MissingVariable("HOST".to_string())
    );
    let parsed = pluely::curl::parse_curl(&r.provider.curl).unwrap();
    assert_eq!(
        plan_custom(parsed, &r, &vars(&[("HOST", "h")])).unwrap_err(),
        LlmError::CurlParse("unsupported method: FLY".to_string())
    );
    let parsed = pluely::curl::parse_curl(&r.provider.curl).unwrap();
    assert_eq!(
        plan_with(parsed, &r, &vars(&[])).unwrap_err(),
        LlmError::MissingVariable("HOST".to_string())
    );
}

#[test]
fn methods_are_known_in_any_case() {
    for (name, method) in [
        ("get", Method::Get),
        ("Post", Method::Post),
        ("PUT", Method::Put),
        ("patch", Method::Patch),
        ("DELETE", Method::Delete),
    ] {
        assert_eq!(parse_method(name).unwrap(), method);
    }
    assert_eq!(
        parse_method("head").unwrap_err().to_string(),
        "curl parse: unsupported method: HEAD"
    );
}

#[test]
fn a_stream_is_asked_for_under_the_key_there_is() {
    let asked = |s: &str| ask_for_stream(Json::parse(s).unwrap()).to_text();
    assert_eq!(asked(r#"{"STREAM":0,"stream":false}"#), r#"{"STREAM":true,"stream":false}"#);
    assert_eq!(asked(r#"{"streams":1}"#), r#"{"stream":true,"streams":1}"#);
    assert_eq!(asked("[1]"), "[1]");
}

#[test]
fn statuses_beyond_two_hundred_are_errors() {
    assert!(check_status(200, "").is_ok());
    assert!(check_status(299, "x").is_ok());
    for status in [199u16, 300, 404, 500] {
        assert_eq!(
            check_status(status, "body").unwrap_err(),
            LlmError::ProviderApi { status, body: "body".to_string() }
        );
    }
}

#[test]
fn a_whole_answer_is_one_chunk() {
    let v = Json::parse(r#"{"a":{"b":"x"}}"#).unwrap();
    assert_eq!(
        whole_answer(&v, "a.b"),
        ("x".to_string(), Some(StreamEvent::Chunk { delta: "x".to_string() }))
    );
    assert_eq!(whole_answer(&v, "a.c"), (String::new(), None));
}
