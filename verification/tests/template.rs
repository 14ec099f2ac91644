use pluely::json::Json;
use pluely::string_map::StringMap;
use pluely::template::{extract_variables, substitute_string, substitute_value};

fn vars(pairs: &[(&str, &str)]) -> StringMap<String> {
    let mut m: StringMap<String> = StringMap::new();
    for (k, v) in pairs {
        m.insert(k.to_string(), v.to_string());
    }
    m
}

#[test]
fn variables_are_capital_and_come_once() {
    assert_eq!(
        extract_variables("{{A_B}} {{c}} {{A_B}} {{}} {{D1}} {{E}} {{F"),
        vec!["A_B".to_string(), "E".to_string()]
    );
    assert!(extract_variables("no braces }} {{").is_empty());
    assert_eq!(extract_variables("{{{A}}}"), Vec::<String>::new());
}

#[test]
fn values_are_put_in() {
    let v = vars(&[("A", "1"), ("b c", "2"), ("N", "{{A}}")]);
    assert_eq!(substitute_string("x{{A}}y{{b c}}z{{Q}}", &v), "x1y2z{{Q}}");
    assert_eq!(substitute_string("{{N}}{{A", &v), "{{A}}{{A");
    assert_eq!(substitute_string("{{A}}}", &v), "1}");
}

#[test]
fn without_values_nothing_changes() {
    let none = vars(&[]);
    let s = "a {{A}} {{ {{B}} }} {{";
    assert_eq!(substitute_string(s, &none), s);
}

#[test]
fn texts_change_and_keys_stay() {
    let mut value =
        Json::parse(r#"{"{{A}}":["{{A}}",{"k":"x{{A}}"},1,true,null]}"#).unwrap();
    substitute_value(&mut value, &vars(&[("A", "\"q\"")]));
    assert_eq!(
        value.to_text(),
        r#"{"{{A}}":["\"q\"",{"k":"x\"q\""},1,true,null]}"#
    );
}
