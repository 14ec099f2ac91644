use pluely::json::Json;
use pluely::messages::{build_messages, HistoryMessage};
use pluely::schema::{AttachedFile, Role};

fn file(name: &str, mime: &str, base64: &str) -> AttachedFile {
    AttachedFile {
        name: name.to_string(),
        mime: mime.to_string(),
        base64: base64.to_string(),
    }
}

fn said(role: Role, content: &str) -> HistoryMessage {
    HistoryMessage {
        role,
        content: content.to_string(),
    }
}

fn built(body: &str, history: &[HistoryMessage], message: &str, files: &[AttachedFile]) -> String {
    let mut body = Json::parse(body).unwrap();
    build_messages(&mut body, history, message, files);
    body.to_text()
}

#[test]
fn history_and_user_turn_go_into_the_template() {
    assert_eq!(
        built(
            r#"{"messages":[{"role":"system","content":"{{SYSTEM_PROMPT}}"},{"role":"user","content":"> {{TEXT}}"},{"role":"tail"}],"model":"m"}"#,
            &[said(Role::User, "hi"), said(Role::Assistant, "hello")],
            "say \"x\"\n\\ {{TEXT}}",
            &[],
        ),
        r#"{"messages":[{"content":"{{SYSTEM_PROMPT}}","role":"system"},{"content":"hi","role":"user"},{"content":"hello","role":"assistant"},{"content":"> say \"x\"\n\\ {{TEXT}}","role":"user"},{"role":"tail"}],"model":"m"}"#
    );
}

#[test]
fn without_a_place_the_turn_comes_last() {
    assert_eq!(
        built(
            r#"{"contents":[{"role":"x"}],"messages":"no array","history":[]}"#,
            &[said(Role::System, "s")],
            "m",
            &[],
        ),
        r#"{"contents":[{"role":"x"},{"content":"s","role":"system"},{"content":"m","role":"user"}],"history":[],"messages":"no array"}"#
    );
    assert_eq!(
        built(r#"{"conversation":[]}"#, &[], "m", &[]),
        r#"{"conversation":[{"content":"m","role":"user"}]}"#
    );
}

#[test]
fn bodies_without_messages_stay() {
    for body in [r#"{"a":1}"#, "[]", "\"{{TEXT}}\"", "null", r#"{"messages":{}}"#] {
        assert_eq!(built(body, &[said(Role::User, "h")], "m", &[]), body);
    }
}

#[test]
fn a_key_with_the_placeholder_is_no_place_but_is_filled() {
    assert_eq!(
        built(r#"{"messages":[{"{{TEXT}}":1}]}"#, &[], "m", &[]),
        r#"{"messages":[{"{{TEXT}}":1},{"content":"m","role":"user"}]}"#
    );
    assert_eq!(
        built(r#"{"messages":[{"{{TEXT}}":1,"b":"{{TEXT}}"}]}"#, &[], "z", &[]),
        r#"{"messages":[{"b":"z","z":1}]}"#
    );
}

const TEMPLATE: &str = r#"{"messages":[{"role":"user","content":[{"type":"text","text":"{{TEXT}}"},{"type":"image","data":"{{IMAGE}}","mime":"{{IMAGE_MIME}}"},{"type":"file","data":"{{DOCUMENT}}"}]}]}"#;

#[test]
fn each_attachment_gets_its_copy() {
    let files = [
        file("a", "image/png", "AAA"),
        file("b", "application/pdf", "BBB"),
        file("c", "image/gif", "CCC"),
        file("d", "application/pdf", "DDD"),
    ];
    assert_eq!(
        built(TEMPLATE, &[], "t", &files),
        r#"{"messages":[{"content":[{"text":"t","type":"text"},{"data":"AAA","mime":"image/png","type":"image"},{"data":"CCC","mime":"image/gif","type":"image"},{"data":"BBB","type":"file"},{"data":"DDD","type":"file"}],"role":"user"}]}"#
    );
}

#[test]
fn items_for_attachments_go_where_there_are_none() {
    assert_eq!(
        built(TEMPLATE, &[], "t", &[]),
        r#"{"messages":[{"content":[{"text":"t","type":"text"}],"role":"user"}]}"#
    );
}

#[test]
fn nested_arrays_are_expanded_from_the_outside() {
    let files = [file("a", "image/png", "1"), file("b", "image/jpg", "2")];
    assert_eq!(
        built(
            r#"{"messages":["{{TEXT}}",{"parts":[["{{IMAGE}}","{{IMAGE}}"]]}]}"#,
            &[],
            "t",
            &files
        ),
        r#"{"messages":["t",{"parts":[["{{IMAGE}}","{{IMAGE}}"]]}]}"#
    );
    assert_eq!(
        built(
            r#"{"messages":[{"t":"{{TEXT}}","parts":[["{{IMAGE}}"]]}]}"#,
            &[],
            "t",
            &files
        ),
        r#"{"messages":[{"parts":[["1"],["2"]],"t":"t"}]}"#
    );
}

#[test]
fn only_the_first_item_of_a_kind_is_copied() {
    let files = [file("a", "image/png", "1")];
    assert_eq!(
        built(
            r#"{"messages":[["{{TEXT}}","{{IMAGE_MIME}}","{{IMAGE}}"]]}"#,
            &[],
            "t",
            &files
        ),
        r#"{"messages":[["t","image/png","{{IMAGE}}"]]}"#
    );
}

#[test]
fn control_characters_survive_the_template() {
    assert_eq!(
        built(r#"{"messages":["{{TEXT}}"]}"#, &[], "\u{0}\u{8}\u{c}\u{1f}é", &[]),
        "{\"messages\":[\"\\u0000\\b\\f\\u001fé\"]}"
    );
}

#[test]
fn roles_have_their_names() {
    assert_eq!(Role::User.as_str(), "user");
    assert_eq!(Role::Assistant.as_str(), "assistant");
    assert_eq!(Role::System.as_str(), "system");
}
