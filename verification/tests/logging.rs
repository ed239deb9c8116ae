use ftb_translater::logging::{
    application_directory, clean_error, clean_identifier, clean_text, clean_value, is_sensitive_key, parse_level, Level,
};
use ftb_translater::rich_text::{Json, Member};
use std::str::FromStr;

fn object(members: Vec<(&str, Json)>) -> Json {
    Json::Object(members.into_iter().map(|(key, value)| Member { key: key.to_string(), value }).collect())
}

fn text(s: &str) -> Json {
    Json::Str(s.to_string())
}

fn member<'a>(value: &'a Json, key: &str) -> &'a Json {
    match value {
        Json::Object(members) => &members.iter().find(|m| m.key == key).unwrap().value,
        _ => panic!("not an object"),
    }
}

fn string(value: &Json) -> &str {
    match value {
        Json::Str(s) => s,
        _ => panic!("not a string"),
    }
}

#[test]
fn validates_log_levels() {
    assert_eq!(Level::from_str("debug").unwrap(), Level::Debug);
    assert!(Level::from_str("verbose").is_err());
}

#[test]
fn level_names_are_trimmed_and_case_insensitive() {
    assert_eq!(parse_level("  WARN ").unwrap(), Level::Warn);
    assert_eq!(parse_level("Trace").unwrap(), Level::Trace);
    assert_eq!(parse_level("").unwrap_err(), "日志级别必须是 error、warn、info、debug 或 trace");
    assert_eq!(Level::Error.as_str(), "ERROR");
    assert!(Level::Error.enabled(Level::Info));
    assert!(!Level::Debug.enabled(Level::Info));
}

#[test]
fn stores_logs_next_to_the_macos_app_bundle() {
    let executable = "/Applications/FTB Translator.app/Contents/MacOS/ftb-translator";
    assert_eq!(application_directory(executable, true).unwrap(), "/Applications");
}

#[test]
fn stores_logs_next_to_the_executable_elsewhere() {
    let executable = "/Applications/FTB Translator.app/Contents/MacOS/ftb-translator";
    assert_eq!(
        application_directory(executable, false).unwrap(),
        "/Applications/FTB Translator.app/Contents/MacOS"
    );
    assert_eq!(application_directory("/ftb", false).unwrap(), "/");
    assert!(application_directory("/", false).is_err());
}

#[test]
fn removes_sensitive_structured_fields() {
    let value = clean_value(&object(vec![
        ("api_key", text("abc")),
        ("entry_key", text("quest.title")),
        ("nested", object(vec![("accessToken", text("xyz")), ("client-secret", text("hidden"))])),
    ]));
    assert_eq!(string(member(&value, "api_key")), "[REDACTED]");
    assert_eq!(string(member(member(&value, "nested"), "accessToken")), "[REDACTED]");
    assert_eq!(string(member(member(&value, "nested"), "client-secret")), "[REDACTED]");
    assert_eq!(string(member(&value, "entry_key")), "quest.title");
}

#[test]
fn removes_http_response_bodies_from_errors() {
    let value = clean_value(&object(vec![("error", text("  HTTP 429 Too Many Requests: echoed source text"))]));
    assert_eq!(string(member(&value, "error")), "HTTP 429 Too Many Requests");
}

#[test]
fn deep_context_is_truncated() {
    let mut value = text("leaf");
    for _ in 0..7 {
        value = object(vec![("child", value)]);
    }
    let cleaned = clean_value(&value);
    let mut cursor = &cleaned;
    for _ in 0..6 {
        cursor = member(cursor, "child");
    }
    assert_eq!(string(cursor), "[TRUNCATED]");
}

#[test]
fn event_names_and_messages_are_cleaned() {
    assert_eq!(clean_identifier("cmp apply/ok"), "cmp_apply_ok");
    assert_eq!(clean_identifier(&"x".repeat(100)).len(), 80);
    assert_eq!(clean_text("a\r\nb", 10), "a  b");
    assert_eq!(clean_text("abcdef", 3), "abc…");
    assert_eq!(clean_error("plain\nfailure"), "plain failure");
    assert!(is_sensitive_key("Refresh-Token"));
    assert!(!is_sensitive_key("tokens"));
}
