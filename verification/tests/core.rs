use ftb_translater::entries::{prepare_entry, render_entry, warnings, EntryKind};
use ftb_translater::protection::{protect, restore};
use ftb_translater::rich_text::{Document, Json, Member};

fn json(value: serde_json::Value) -> Json {
    match value {
        serde_json::Value::Null => Json::Null,
        serde_json::Value::Bool(b) => Json::Bool(b),
        serde_json::Value::Number(n) => Json::Number(n.to_string()),
        serde_json::Value::String(s) => Json::Str(s),
        serde_json::Value::Array(v) => Json::Array(v.into_iter().map(json).collect()),
        serde_json::Value::Object(o) => {
            Json::Object(o.into_iter().map(|(key, value)| Member { key, value: json(value) }).collect())
        }
    }
}

/// A text read as a JSON text component (these texts have no duplicate keys).
fn component(text: &str) -> Option<Document> {
    serde_json::from_str::<serde_json::Value>(text).ok().and_then(|value| Document::from_json(json(value)))
}

fn guard(source: &str, target: &str) -> Vec<String> {
    let a = component(source);
    let b = component(target);
    warnings(source, target, a.as_ref(), b.as_ref())
}

#[test]
fn protects_format_tokens() {
    let src = "Use &e%s&r on <item:minecraft:stone> in assets/mod/textures/a.png\\n";
    let (p, t) = protect(src);
    assert!(!p.contains("minecraft:stone"));
    assert_eq!(restore(&p, &t).unwrap(), src);
    assert!(guard(src, "使用 &e%s&r 于 <item:minecraft:stone>，位于 assets/mod/textures/a.png\\n").is_empty());
}

#[test]
fn rejects_missing_token() {
    assert!(!warnings("Use %s and &eGold&r", "使用黄金", None, None).is_empty())
}

#[test]
fn rejects_injected_or_duplicated_opaque_placeholders() {
    let (protected, tokens) = protect("Use minecraft:stone and 16 blocks");
    assert!(restore(&format!("{protected} ⟨P_999⟩"), &tokens).is_err());
    assert!(restore(&format!("{protected} {}", tokens[0].0), &tokens).is_err());
}

#[test]
fn protects_resource_ids_selectors_tags_and_numbers() {
    let source = "Give 16 minecraft:stone to @p[tag=builder] from #forge:storage_blocks/iron";
    let (protected, tokens) = protect(source);
    assert!(!protected.contains("minecraft:stone"));
    assert!(!protected.contains("@p[tag=builder]"));
    assert!(!protected.contains("#forge:storage_blocks/iron"));
    assert!(!protected.contains("16"));
    assert_eq!(restore(&protected, &tokens).unwrap(), source);
}

#[test]
fn rejects_changed_json_shape() {
    let a = r#"{"text":"Hello","color":"red"}"#;
    let b = r#"{"text":"你好","color":"blue"}"#;
    assert!(!guard(a, b).is_empty())
}

#[test]
fn accepts_only_rich_text_display_field_changes() {
    let source = r#"{"translate":"key.example","with":["Now"],"clickEvent":{"action":"run_command","value":"/say hi"}}"#;
    let translated = r#"{"translate":"key.example","with":["现在"],"clickEvent":{"action":"run_command","value":"/say hi"}}"#;
    let changed_command = r#"{"translate":"key.example","with":["现在"],"clickEvent":{"action":"run_command","value":"/say 你好"}}"#;
    assert!(guard(source, translated).is_empty());
    assert!(!guard(source, changed_command).is_empty());
}

#[test]
fn duplicate_key_json_is_never_sent_as_plain_translation_text() {
    let source = r#"{"text":"First","text":"Second"}"#.to_string();
    // A component with a repeated key cannot be read as one.
    let (entry, items) = prepare_entry("duplicate".into(), source.clone(), 0, None, None);
    assert!(items.is_empty());
    assert!(matches!(&entry.kind, EntryKind::Untouched(_)));
    assert_eq!(render_entry(&entry, &Vec::new()).unwrap(), source);
}

#[test]
fn plain_entries_become_one_protected_unit() {
    let (entry, items) = prepare_entry("quest.title".into(), "Collect 16 stone".into(), 3, None, None);
    assert_eq!(items.len(), 1);
    assert_eq!(items[0].id, "__ftb_unit_3_0");
    assert_eq!(items[0].path, "$");
    assert_eq!(items[0].protected, "Collect ⟨P_0⟩ stone");
    assert_eq!(items[0].tokens, vec![("⟨P_0⟩".to_string(), "16".to_string())]);
    let results = vec![("__ftb_unit_3_0".to_string(), "收集 16 个石头".to_string())];
    assert_eq!(render_entry(&entry, &results).unwrap(), "收集 16 个石头");
    assert_eq!(render_entry(&entry, &Vec::new()).unwrap_err(), "缺少翻译单元：__ftb_unit_3_0");
}

#[test]
fn rich_text_entries_translate_only_display_strings() {
    let source = r#"{"text":"Open","clickEvent":{"action":"run_command","value":"/say hi"}}"#;
    let (entry, items) = prepare_entry("e".into(), source.into(), 0, component(source), None);
    assert_eq!(items.len(), 1);
    assert_eq!(items[0].path, "/text");
    let rendered = render_entry(&entry, &vec![(items[0].id.clone(), "打开".to_string())]).unwrap();
    let value: serde_json::Value = serde_json::from_str(&rendered).unwrap();
    assert_eq!(value["text"], "打开");
    assert_eq!(value["clickEvent"]["value"], "/say hi");
}

#[test]
fn counts_line_breaks_and_tabs() {
    assert_eq!(guard("a\nb", "ab"), vec!["换行数量不一致".to_string()]);
    assert_eq!(guard("a\tb", "a b"), vec!["制表符数量不一致".to_string()]);
    assert_eq!(guard(r#"{"text":"Hi"}"#, "not json"), vec!["JSON 文本组件不再是有效 JSON".to_string()]);
}

#[test]
fn reordered_keys_keep_the_component_structure() {
    let a = Document::from_json(Json::Object(vec![
        Member { key: "color".into(), value: Json::Str("red".into()) },
        Member { key: "bold".into(), value: Json::Bool(true) },
    ]))
    .unwrap();
    let b = Document::from_json(Json::Object(vec![
        Member { key: "bold".into(), value: Json::Bool(true) },
        Member { key: "color".into(), value: Json::Str("red".into()) },
    ]))
    .unwrap();
    let found = warnings(r#"{"color":"red","bold":true}"#, r#"{"bold":true,"color":"red"}"#, Some(&a), Some(&b));
    assert!(found.is_empty(), "{found:?}");
    let c = Document::from_json(Json::Object(vec![
        Member { key: "bold".into(), value: Json::Bool(false) },
        Member { key: "color".into(), value: Json::Str("red".into()) },
    ]))
    .unwrap();
    let changed = warnings(r#"{"color":"red","bold":true}"#, r#"{"bold":false,"color":"red"}"#, Some(&a), Some(&c));
    assert_eq!(changed, vec!["JSON 文本组件结构发生变化".to_string()]);
}
