use ftb_translater::rich_text::{looks_like_component, Document, Json, Member};

fn json(value: serde_json::Value) -> Json {
    match value {
        serde_json::Value::Null => Json::Null,
        serde_json::Value::Bool(b) => Json::Bool(b),
        serde_json::Value::Number(n) => Json::Number(n.to_string()),
        serde_json::Value::String(s) => Json::Str(s),
        serde_json::Value::Array(v) => Json::Array(v.into_iter().map(json).collect()),
        serde_json::Value::Object(o) => {
            Json::Object(o.into_iter().map(|(key, value)| Member { key, value: json(value) }).collect())
        }
    }
}

fn component(text: &str) -> Option<Document> {
    serde_json::from_str::<serde_json::Value>(text).ok().and_then(|value| Document::from_json(json(value)))
}

#[test]
fn extracts_only_player_facing_component_text() {
    let source = r#"{"text":"Open ","color":"gold","extra":[{"text":"guide","clickEvent":{"action":"open_url","value":"https://example.com"}},{"translate":"key.jump","with":["now"]}],"hoverEvent":{"action":"show_text","contents":{"text":"More info"}}}"#;
    let document = component(source).unwrap();
    let units = document
        .units()
        .iter()
        .map(|unit| (unit.pointer.as_str(), unit.source.as_str()))
        .collect::<Vec<_>>();
    assert_eq!(
        units,
        [
            ("/text", "Open "),
            ("/extra/0/text", "guide"),
            ("/extra/1/with/0", "now"),
            ("/hoverEvent/contents/text", "More info"),
        ]
    );
}

#[test]
fn renders_translations_without_touching_component_structure() {
    let source = r#"{"text":"Open","clickEvent":{"action":"run_command","value":"/say hi"},"hoverEvent":{"action":"show_item","contents":{"id":"minecraft:stone"}}}"#;
    let document = component(source).unwrap();
    let rendered = document.render(&vec![("/text".into(), "打开".into())]).unwrap();
    let value: serde_json::Value = serde_json::from_str(&rendered).unwrap();
    assert_eq!(value["text"], "打开");
    assert_eq!(value["clickEvent"]["value"], "/say hi");
    assert_eq!(value["hoverEvent"]["contents"]["id"], "minecraft:stone");
}

#[test]
fn rejects_duplicate_json_keys_instead_of_silently_dropping_them() {
    let source = r#"{"text":"First","text":"Second"}"#;
    assert!(looks_like_component(source));
}

#[test]
fn rendering_refuses_missing_or_non_string_targets() {
    let document = component(r#"{"text":"Open","extra":[1]}"#).unwrap();
    assert_eq!(
        document.render(&vec![("/missing".into(), "x".into())]).unwrap_err(),
        "JSON 富文本回填路径不存在：/missing"
    );
    assert_eq!(
        document.render(&vec![("/extra/0".into(), "x".into())]).unwrap_err(),
        "JSON 富文本回填目标不是字符串：/extra/0"
    );
}

#[test]
fn scalars_are_not_components() {
    assert!(component("\"just text\"").is_none());
    assert!(!looks_like_component("plain words"));
    assert!(looks_like_component("\u{feff}  [\"a\""));
    let document = component(r#"{"text":"Hi","hoverEvent":{"action":"show_entity","contents":{"name":"Bob"}}}"#).unwrap();
    assert_eq!(document.units().len(), 2);
    assert_eq!(document.text_at("/hoverEvent/contents/name").unwrap(), "Bob");
}
