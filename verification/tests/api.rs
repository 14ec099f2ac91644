use pluely::activate::{
    activate_call, activation_request, checkout_call, clears_credentials, credentials_to_keep,
    deactivate_call, get_payment_endpoint, map_reqwest_error, validate_call,
    validated_without_call, ActivationResponse, InstanceInfo,
};
use pluely::api::{
    activity_call, after_attempt, base64_part, choose_transcription, decode_audio_base64,
    explain_decoded, get_api_access_key, get_app_endpoint, machine_id_or_empty, models_call,
    parse_transcription, primary_target, prompts_call, require_audio, require_license, require_machine_id,
    system_prompt_call, transcription_fields, transcription_refusal, AudioTurn, Caller,
};
use pluely::call::{activity_error, describe_refusal, server_error};
use pluely::json::Json;
use pluely::keychain::{
    license_entries, migrated_marker, moved_entries, needs_move, KeychainEntry,
    LegacySecureStorage,
};
use pluely::migrations::{legacy_stamp, pending_versions};
use pluely::pluely::{UserAudioConfig, UserAudioHeader};
use pluely::provider::Method;

fn s(t: &str) -> String {
    t.to_string()
}

fn pairs(call: &[(String, String)]) -> Vec<(&str, &str)> {
    call.iter().map(|(k, v)| (k.as_str(), v.as_str())).collect()
}

fn caller(machine_id: &str) -> Caller {
    Caller {
        license_key: s("lk"),
        instance_id: s("inst"),
        machine_id: s(machine_id),
        app_version: s("1.2"),
    }
}

fn audio(fallback: bool) -> UserAudioConfig {
    UserAudioConfig {
        url: s("https://a"),
        fallback_url: if fallback { Some(s("https://b")) } else { None },
        model: s("whisper"),
        fallback_model: None,
        user_token: s("t"),
        fallback_user_token: Some(s("ft")),
        headers: None,
    }
}

#[test]
fn the_environment_comes_before_the_build() {
    assert_eq!(get_app_endpoint(Some(s("a")), Some(s("b"))), Ok(s("a")));
    assert_eq!(get_api_access_key(None, Some(s("b"))), Ok(s("b")));
    assert_eq!(
        get_app_endpoint(None, None),
        Err(s("APP_ENDPOINT environment variable not set. Please ensure it's set during the build process."))
    );
    assert_eq!(
        get_api_access_key(None, None),
        Err(s("API_ACCESS_KEY environment variable not set. Please ensure it's set during the build process."))
    );
    assert_eq!(
        get_payment_endpoint(None, None),
        Err(s("PAYMENT_ENDPOINT environment variable not set. Please ensure it's set during the build process."))
    );
}

#[test]
fn audio_may_be_a_data_url() {
    assert_eq!(decode_audio_base64(" data:audio/wav;base64,aGk=\n"), Ok(b"hi".to_vec()));
    assert_eq!(decode_audio_base64("aGk="), Ok(b"hi".to_vec()));
    assert_eq!(decode_audio_base64(""), Ok(Vec::new()));
    assert_eq!(
        decode_audio_base64("a,b,c"),
        Err(s("Failed to decode audio data: Invalid symbol 44, offset 1."))
    );
    assert_eq!(base64_part("x,y,z"), "y,z");
    assert_eq!(explain_decoded(Err(s("e"))), Err(s("Failed to decode audio data: e")));
}

#[test]
fn blank_fields_are_left_out() {
    let headers = Some(vec![
        UserAudioHeader { key: s(" lang "), value: s(" en ") },
        UserAudioHeader { key: s(" \t"), value: s("x") },
    ]);
    assert_eq!(
        pairs(&transcription_fields("m", &headers)),
        vec![("model", "m"), ("lang", " en ")]
    );
    assert_eq!(pairs(&transcription_fields("m", &None)), vec![("model", "m")]);
}

#[test]
fn a_transcription_is_found_in_its_response() {
    for (body, text) in [
        (r#"{"text":"a","result":"b"}"#, "a"),
        (r#"{"text":1,"transcription":"b","result":"c"}"#, "b"),
        (r#"{"result":"c"}"#, "c"),
        (r#"{ "b" : 1, "a" : [] }"#, r#"{"a":[],"b":1}"#),
        ("plain words", "plain words"),
        (" \"quoted\" ", "\"quoted\""),
    ] {
        assert_eq!(parse_transcription(body), Ok(s(text)));
    }
    assert_eq!(parse_transcription(" \n"), Err(s("Transcription response was empty")));
    assert_eq!(choose_transcription("7", &None), Ok(s("7")));
    assert_eq!(choose_transcription("x", &Some(Json::Null)), Ok(s("null")));
    assert_eq!(
        transcription_refusal("400 Bad Request", "b"),
        "Transcription request returned 400 Bad Request with body: b"
    );
}

#[test]
fn transcription_falls_back_once() {
    let configured = Some(audio(true));
    let target = primary_target(require_audio(&configured).unwrap());
    assert_eq!((target.url.as_str(), target.token.as_str(), target.model.as_str()), ("https://a", "t", "whisper"));
    assert_eq!(
        require_audio(&None).unwrap_err(),
        "Audio transcription is not configured for this workspace. Please contact support."
    );
    match after_attempt(&audio(true), None, Ok(s("words"))) {
        AudioTurn::Done(r) => {
            assert!(r.success);
            assert_eq!(r.transcription, Some(s("words")));
            assert_eq!(r.error, None);
        }
        _ => panic!("an answer expected"),
    }
    match after_attempt(&audio(true), None, Err(s("e1"))) {
        AudioTurn::Again { target, primary_error } => {
            assert_eq!((target.url.as_str(), target.token.as_str(), target.model.as_str()), ("https://b", "ft", "whisper"));
            assert_eq!(primary_error, "e1");
        }
        _ => panic!("another attempt expected"),
    }
    for (turn, expected) in [
        (after_attempt(&audio(true), Some(s("e1")), Err(s("e2"))), "Primary: e1 | Fallback: e2"),
        (after_attempt(&audio(false), None, Err(s("e1"))), "Primary: e1 | Fallback: fallback not configured"),
    ] {
        match turn {
            AudioTurn::Fail { report, returned } => {
                assert_eq!(report, expected);
                assert_eq!(returned, "Transcription failed. Please try again.");
            }
            _ => panic!("a failure expected"),
        }
    }
}

#[test]
fn catalogue_calls_name_their_caller() {
    let call = models_call("https://s", "k", &caller("mid"));
    assert_eq!((call.method, call.url.as_str()), (Method::Post, "https://s/api/models"));
    let all = vec![
        ("Content-Type", "application/json"),
        ("Authorization", "Bearer k"),
        ("license_key", "lk"),
        ("instance", "inst"),
        ("machine_id", "mid"),
        ("app_version", "1.2"),
    ];
    assert_eq!(pairs(&call.headers), all);
    assert!(call.body.is_none());
    let call = system_prompt_call("https://s", "k", &caller("mid"), "be kind");
    assert_eq!(call.url, "https://s/api/prompt");
    assert_eq!(pairs(&call.headers), all);
    assert_eq!(call.body.unwrap().to_text(), r#"{"user_prompt":"be kind"}"#);
    let call = prompts_call("https://s", "k");
    assert_eq!(call.url, "https://s/api/prompts");
    assert_eq!(pairs(&call.headers), all[..2].to_vec());
    let call = activity_call("https://s/", "k", &caller("mid")).unwrap();
    assert_eq!((call.method, call.url.as_str()), (Method::Get, "https://s/api/activity"));
    assert_eq!(
        pairs(&call.headers),
        vec![
            ("Authorization", "Bearer k"),
            ("license_key", "lk"),
            ("instance_name", "inst"),
            ("machine_id", "mid"),
            ("app_version", "1.2"),
        ]
    );
    assert_eq!(
        activity_call("https://s", "k", &caller("")).unwrap_err(),
        "Machine identifier unavailable"
    );
}

#[test]
fn what_is_needed_and_missing_is_an_error() {
    assert_eq!(require_license(Some(s("x"))), Ok(s("x")));
    assert_eq!(
        require_license(None),
        Err(s("No license found. Please activate your license first."))
    );
    assert_eq!(require_machine_id(Ok(Some(s("m")))), Ok(s("m")));
    assert_eq!(require_machine_id(Ok(None)), Err(s("machine_uid empty")));
    assert_eq!(require_machine_id(Err(s("e"))), Err(s("machine_uid: e")));
    assert_eq!(machine_id_or_empty(Ok(Some(s("m")))), "m");
    assert_eq!(machine_id_or_empty(Ok(None)), "");
    assert_eq!(machine_id_or_empty(Err(s("e"))), "");
}

#[test]
fn refusals_are_explained() {
    let both = r#"{"error":"e","message":"m"}"#;
    assert_eq!(server_error("500 X", both), "Server error (500 X): e");
    assert_eq!(activity_error("500 X", both), "Server error (500 X): m");
    assert_eq!(server_error("500", r#"{"error":{},"message":"m"}"#), "Server error (500): m");
    assert_eq!(activity_error("500", "plain"), "Server error (500): plain");
    assert_eq!(server_error("500", "{}"), "Server error (500): {}");
    assert_eq!(describe_refusal("1", both, &None, "error", "message"), format!("Server error (1): {both}"));
}

#[test]
fn urls_are_kept_out_of_request_errors() {
    assert_eq!(
        map_reqwest_error("error sending request for url (https://x/?key=1): timed out"),
        "Failed to make chat request: error sending request"
    );
    assert_eq!(map_reqwest_error("url (x)"), "Failed to make chat request: url (x)");
    assert_eq!(map_reqwest_error(""), "Failed to make chat request: ");
}

fn response(activated: bool, key: Option<&str>, instance: bool, error: Option<&str>) -> ActivationResponse {
    ActivationResponse {
        activated,
        error: error.map(s),
        license_key: key.map(s),
        instance: if instance {
            Some(InstanceInfo { id: s("iid"), name: s("n"), created_at: s("t") })
        } else {
            None
        },
        is_dev_license: false,
    }
}

#[test]
fn credentials_follow_the_payment_service() {
    assert_eq!(
        credentials_to_keep(&response(true, Some("k"), true, None)),
        Some((s("k"), s("iid")))
    );
    assert_eq!(credentials_to_keep(&response(false, Some("k"), true, None)), None);
    assert_eq!(credentials_to_keep(&response(true, None, true, None)), None);
    assert_eq!(credentials_to_keep(&response(true, Some("k"), false, None)), None);
    assert!(clears_credentials(&response(false, None, false, Some("e"))));
    assert!(clears_credentials(&response(true, None, false, None)));
    assert!(!clears_credentials(&response(true, None, false, Some("e"))));
    let answer = validated_without_call("", "i").unwrap();
    assert!(!answer.is_active && !answer.is_dev_license && answer.last_validated_at.is_none());
    assert!(validated_without_call("k", "").is_some());
    assert!(validated_without_call("k", "i").is_none());
    let r = activation_request("k", "i", "m", "v");
    assert_eq!(
        (r.license_key, r.instance_name, r.machine_id, r.app_version),
        (s("k"), s("i"), s("m"), s("v"))
    );
}

#[test]
fn the_payment_service_is_called() {
    let request = activation_request("lk", "inst", "mid", "1.2");
    for (call, url) in [
        (activate_call("https://p", "k", &request), "https://p/activate"),
        (deactivate_call("https://p", "k", &request), "https://p/deactivate"),
        (validate_call("https://p", "k", &request), "https://p/validate"),
    ] {
        assert_eq!((call.method, call.url.as_str()), (Method::Post, url));
        assert_eq!(
            pairs(&call.headers),
            vec![("Content-Type", "application/json"), ("Authorization", "Bearer k")]
        );
        assert_eq!(
            call.body.unwrap().to_text(),
            r#"{"app_version":"1.2","instance_name":"inst","license_key":"lk","machine_id":"mid"}"#
        );
    }
    let call = checkout_call("https://p", "k");
    assert_eq!(call.url, "https://p/checkout");
    assert_eq!(call.body.unwrap().to_text(), "{}");
}

fn triples(entries: &[KeychainEntry]) -> Vec<(&str, &str, &str)> {
    entries
        .iter()
        .map(|e| (e.service.as_str(), e.account.as_str(), e.value.as_str()))
        .collect()
}

#[test]
fn the_plain_text_store_is_moved_once() {
    assert!(needs_move(&None, true));
    assert!(!needs_move(&Some(s("1")), true));
    assert!(!needs_move(&None, false));
    let all = LegacySecureStorage {
        license_key: Some(s("k")),
        instance_id: Some(s("i")),
        selected_pluely_model: Some(s("{}")),
    };
    assert_eq!(
        triples(&moved_entries(&all)),
        vec![
            ("pluely.license", "license_key", "k"),
            ("pluely.license", "instance_id", "i"),
            ("pluely.license", "selected_model", "{}"),
        ]
    );
    let half = LegacySecureStorage {
        license_key: Some(s("k")),
        instance_id: None,
        selected_pluely_model: None,
    };
    assert!(moved_entries(&half).is_empty());
    assert_eq!(triples(&license_entries("a", "b")).len(), 2);
    assert_eq!(
        triples(&[migrated_marker()]),
        vec![("pluely.meta", "keychain_migrated_v1", "1")]
    );
}

#[test]
fn migrations_run_from_the_current_version() {
    assert_eq!(pending_versions(0), vec![1, 2, 3]);
    assert_eq!(pending_versions(1), vec![2, 3]);
    assert_eq!(pending_versions(3), Vec::<i64>::new());
    assert_eq!(pending_versions(9), Vec::<i64>::new());
    assert_eq!(pending_versions(-1), vec![1, 2, 3]);
    assert_eq!(legacy_stamp(0, true), Some(2));
    assert_eq!(legacy_stamp(0, false), None);
    assert_eq!(legacy_stamp(1, true), None);
    assert_eq!(pending_versions(legacy_stamp(0, true).unwrap()), vec![3]);
}
