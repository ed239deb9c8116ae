use ftb_translater::cmp::{assemble, frame, parse_pair, render, Decoded, Document, Frame, Location, Meta, Record};
use ftb_translater::error::{AppError, ErrorCode};

const HEADER: &str = "# FTB Translater CMP v1";

fn text_field(object: &serde_json::Map<String, serde_json::Value>, key: &str) -> Result<String, String> {
    match object.get(key) {
        Some(serde_json::Value::String(s)) => Ok(s.clone()),
        Some(_) => Err(format!("invalid type for field `{key}`")),
        None => Err(format!("missing field `{key}`")),
    }
}

fn number_field(object: &serde_json::Map<String, serde_json::Value>, key: &str) -> Result<u64, String> {
    object.get(key).and_then(|v| v.as_u64()).ok_or(format!("missing field `{key}`"))
}

/// Reads a meta object the way the application does for these well-formed texts.
fn meta_from(raw: &str) -> Result<Meta, String> {
    let value: serde_json::Value = serde_json::from_str(raw).map_err(|e| e.to_string())?;
    let object = value.as_object().ok_or("expected struct Meta".to_string())?;
    Ok(Meta {
        version: number_field(object, "version")? as u32,
        task_id: text_field(object, "task_id").unwrap_or_default(),
        quests_dir: text_field(object, "quests_dir")?,
        mode: text_field(object, "mode")?,
        source_fingerprint: text_field(object, "source_fingerprint")?,
        provider: text_field(object, "provider")?,
        base_url: text_field(object, "base_url")?,
        model: text_field(object, "model")?,
        style: text_field(object, "style")?,
        glossary_enabled: object.get("glossary_enabled").and_then(|v| v.as_bool()).ok_or("missing field `glossary_enabled`".to_string())?,
        glossary_fingerprint: text_field(object, "glossary_fingerprint")?,
        total_entries: number_field(object, "total_entries")? as usize,
        cache_hits: number_field(object, "cache_hits")? as usize,
    })
}

fn location_from(raw: &str) -> Result<Location, String> {
    let value: serde_json::Value = serde_json::from_str(raw).map_err(|e| e.to_string())?;
    let object = value.as_object().ok_or("expected struct Location".to_string())?;
    Ok(Location {
        file: text_field(object, "file")?,
        entry_id: text_field(object, "entry_id")?,
        path: text_field(object, "path")?,
        status: text_field(object, "status")?,
    })
}

fn parse(content: &str) -> Result<Document, AppError> {
    let frames = frame(content)?;
    let decoded: Vec<Decoded> = frames
        .iter()
        .map(|f| match f {
            Frame::Meta { raw, .. } => Decoded::Meta(meta_from(raw)),
            Frame::Location { raw, .. } => Decoded::Location(location_from(raw)),
            _ => Decoded::Nothing,
        })
        .collect();
    assemble(&frames, &decoded)
}

fn meta_text(m: &Meta) -> String {
    let q = |s: &str| serde_json::to_string(s).unwrap();
    format!(
        "{{\"version\":{},\"task_id\":{},\"quests_dir\":{},\"mode\":{},\"source_fingerprint\":{},\"provider\":{},\"base_url\":{},\"model\":{},\"style\":{},\"glossary_enabled\":{},\"glossary_fingerprint\":{},\"total_entries\":{},\"cache_hits\":{}}}",
        m.version,
        q(&m.task_id),
        q(&m.quests_dir),
        q(&m.mode),
        q(&m.source_fingerprint),
        q(&m.provider),
        q(&m.base_url),
        q(&m.model),
        q(&m.style),
        m.glossary_enabled,
        q(&m.glossary_fingerprint),
        m.total_entries,
        m.cache_hits
    )
}

fn record(file: &str, entry_id: &str, path: &str, source: &str, target: &str, status: &str) -> Record {
    Record {
        file: file.into(),
        entry_id: entry_id.into(),
        path: path.into(),
        source: source.into(),
        target: target.into(),
        status: status.into(),
    }
}

fn document() -> Document {
    Document {
        meta: Meta {
            version: 1,
            task_id: "20260714T120000.000Z-0001".into(),
            quests_dir: "/pack/quests".into(),
            mode: "lang".into(),
            source_fingerprint: "abc".into(),
            provider: "google_web".into(),
            base_url: "https://translate.googleapis.com".into(),
            model: "google-web".into(),
            style: "自然中文".into(),
            glossary_enabled: false,
            glossary_fingerprint: String::new(),
            total_entries: 1,
            cache_hits: 0,
        },
        records: vec![record("lang/en_us.snbt", "quest.example", "/text", "Open -> guide\nnow", "立即打开指南", "translated")],
    }
}

fn same_meta(a: &Meta, b: &Meta) -> bool {
    a.version == b.version
        && a.task_id == b.task_id
        && a.quests_dir == b.quests_dir
        && a.mode == b.mode
        && a.source_fingerprint == b.source_fingerprint
        && a.provider == b.provider
        && a.base_url == b.base_url
        && a.model == b.model
        && a.style == b.style
        && a.glossary_enabled == b.glossary_enabled
        && a.glossary_fingerprint == b.glossary_fingerprint
        && a.total_entries == b.total_entries
        && a.cache_hits == b.cache_hits
}

fn same_record(a: &Record, b: &Record) -> bool {
    a.file == b.file && a.entry_id == b.entry_id && a.path == b.path && a.source == b.source && a.target == b.target
        && a.status == b.status
}

fn same_document(a: &Document, b: &Document) -> bool {
    same_meta(&a.meta, &b.meta)
        && a.records.len() == b.records.len()
        && a.records.iter().zip(b.records.iter()).all(|(x, y)| same_record(x, y))
}

fn minimal(location: &str, pair: &str) -> String {
    format!("{HEADER}\n# meta {}\n@ {location}\n{pair}\n", meta_text(&document().meta))
}

#[test]
fn roundtrips_human_readable_cmp_with_arrows_and_newlines() {
    let expected = document();
    let content = render(&expected).unwrap();
    assert!(content.contains(r#""Open -> guide\nnow" -> "立即打开指南""#));
    assert!(same_document(&parse(&content).unwrap(), &expected));
}

#[test]
fn parse_write_parse_preserves_data_and_canonical_output() {
    let meta = meta_text(&document().meta);
    let original = format!(
        r#"{HEADER}
# 旧版编辑器添加的普通注释
# meta {meta}

## file "chapters/alpha.snbt"

@ {{"file":"chapters/alpha.snbt","entry_id":"alpha:0:description","path":"/extra/0/text","status":"translated"}}
"first line\n第二行 ☃" -> "第一行\nsecond line 🚀"

@ {{"file":"chapters/alpha.snbt","entry_id":"alpha:1:subtitle","path":"$","status":"unchanged"}}
"" -> ""

## file "chapters/zeta.snbt"

@ {{"file":"chapters/zeta.snbt","entry_id":"zeta:0:title","path":"$","status":"review"}}
"contains -> arrow and \"quotes\"" -> "路径 C:\\模组\\任务"
"#
    );
    let first = parse(&original).unwrap();
    let first_text = render(&first).unwrap();
    let second = parse(&first_text).unwrap();
    assert!(same_document(&second, &first));
    let second_text = render(&second).unwrap();
    assert_eq!(first_text, second_text);
}

#[test]
fn writer_groups_files_in_stable_order_without_reordering_a_file() {
    let mut expected = document();
    expected.records = vec![
        record("chapters/z.snbt", "z:0:title", "$", "Z0", "零", "translated"),
        record("chapters/a.snbt", "a:0:title", "$", "A0", "甲", "translated"),
        record("chapters/z.snbt", "z:1:title", "$", "Z1", "乙", "review"),
    ];
    expected.meta.total_entries = expected.records.len();
    let content = render(&expected).unwrap();
    let parsed = parse(&content).unwrap();
    let ids = parsed.records.iter().map(|record| record.entry_id.as_str()).collect::<Vec<_>>();
    assert_eq!(ids, ["a:0:title", "z:0:title", "z:1:title"]);
    assert!(content.find("chapters/a.snbt").unwrap() < content.find("chapters/z.snbt").unwrap());
    let location = content.lines().find(|line| line.starts_with("@ ")).unwrap();
    assert_eq!(location, r#"@ {"file":"chapters/a.snbt","entry_id":"a:0:title","path":"$","status":"translated"}"#);
    let meta = content.lines().find(|line| line.starts_with("# meta ")).unwrap();
    for fields in [
        ["\"version\"", "\"task_id\""],
        ["\"task_id\"", "\"quests_dir\""],
        ["\"quests_dir\"", "\"mode\""],
        ["\"mode\"", "\"source_fingerprint\""],
        ["\"source_fingerprint\"", "\"provider\""],
        ["\"provider\"", "\"base_url\""],
        ["\"base_url\"", "\"model\""],
        ["\"model\"", "\"style\""],
        ["\"style\"", "\"glossary_enabled\""],
        ["\"glossary_enabled\"", "\"glossary_fingerprint\""],
        ["\"glossary_fingerprint\"", "\"total_entries\""],
        ["\"total_entries\"", "\"cache_hits\""],
    ] {
        assert!(meta.find(fields[0]).unwrap() < meta.find(fields[1]).unwrap());
    }
}

#[test]
fn editing_only_the_right_hand_json_string_is_readable() {
    let original = render(&document()).unwrap();
    let edited = original.replace(
        r#""Open -> guide\nnow" -> "立即打开指南""#,
        r#""Open -> guide\nnow" -> "引用 \"指南\"，然后打开 C:\\mods""#,
    );
    assert_ne!(edited, original);
    let before = parse(&original).unwrap();
    let after = parse(&edited).unwrap();
    assert!(same_meta(&after.meta, &before.meta));
    assert_eq!(after.records[0].file, before.records[0].file);
    assert_eq!(after.records[0].entry_id, before.records[0].entry_id);
    assert_eq!(after.records[0].path, before.records[0].path);
    assert_eq!(after.records[0].source, before.records[0].source);
    assert_eq!(after.records[0].status, before.records[0].status);
    assert_eq!(after.records[0].target, "引用 \"指南\"，然后打开 C:\\mods");
}

#[test]
fn rejects_duplicate_locations_and_broken_pairs() {
    let mut content = String::from(HEADER);
    content.push_str("\n# meta ");
    content.push_str(&meta_text(&document().meta));
    content.push_str("\n@ {\"file\":\"lang/en_us.snbt\",\"entry_id\":\"a\",\"path\":\"$\",\"status\":\"translated\"}\n");
    content.push_str("\"A\" -> \"甲\"\n");
    content.push_str("@ {\"file\":\"lang/en_us.snbt\",\"entry_id\":\"a\",\"path\":\"$\",\"status\":\"translated\"}\n");
    content.push_str("\"A\" -> \"乙\"\n");
    assert!(parse(&content).is_err());
    assert!(parse_pair(r#""A -> B" => "甲""#).is_err());
}

#[test]
fn rejects_unknown_status_but_accepts_legacy_fallback() {
    let content = minimal(
        "{\"file\":\"lang/en_us.snbt\",\"entry_id\":\"a\",\"path\":\"$\",\"status\":\"invented\"}",
        "\"A\" -> \"甲\"",
    );
    assert!(parse(&content).is_err());
    let compatible = content.replace("invented", "fallback");
    assert_eq!(parse(&compatible).unwrap().records[0].status, "fallback");
}

#[test]
fn accepts_every_v1_status_and_writer_rejects_unknown_status() {
    for status in ["translated", "unchanged", "review", "rate_limited", "request_failed", "format_guard", "fallback"] {
        let mut value = document();
        value.records[0].status = status.into();
        let content = render(&value).unwrap();
        assert_eq!(parse(&content).unwrap().records[0].status, status);
    }
    let mut invalid = document();
    invalid.records[0].status = "invented".into();
    let error = render(&invalid).unwrap_err();
    assert_eq!(error.code, ErrorCode::CmpInvalid);
    assert!(error.user_message.contains("invented"));
}

#[test]
fn rejects_location_that_does_not_match_file_group() {
    let content = format!(
        "{HEADER}\n# meta {}\n## file \"chapters/a.snbt\"\n@ {{\"file\":\"chapters/b.snbt\",\"entry_id\":\"b:0:title\",\"path\":\"$\",\"status\":\"translated\"}}\n\"B\" -> \"乙\"\n",
        meta_text(&document().meta)
    );
    assert!(parse(&content).unwrap_err().user_message.contains("## file"));
}

#[test]
fn parse_and_load_errors_keep_cmp_category_and_internal_context() {
    let parse_error = parse("not a cmp").unwrap_err();
    assert_eq!(parse_error.code, ErrorCode::CmpInvalid);
    assert!(!parse_error.retryable);
    assert!(!parse_error.task_book_modified);
}

#[test]
fn empty_and_headerless_files_are_refused_with_their_messages() {
    assert_eq!(parse("").unwrap_err().user_message, "CMP 文件为空");
    assert_eq!(parse("# FTB Translater CMP v2\n").unwrap_err().user_message, "CMP 文件头无效或版本不受支持");
    let with_bom = format!("\u{feff}{}", render(&document()).unwrap());
    assert!(same_document(&parse(&with_bom).unwrap(), &document()));
}

#[test]
fn missing_meta_missing_pair_and_stray_lines_are_refused() {
    let no_meta = format!("{HEADER}\n@ {{\"file\":\"f\",\"entry_id\":\"a\",\"path\":\"$\",\"status\":\"translated\"}}\n\"A\" -> \"甲\"\n");
    assert_eq!(parse(&no_meta).unwrap_err().user_message, "CMP 文件缺少 meta");
    let no_records = format!("{HEADER}\n# meta {}\n", meta_text(&document().meta));
    assert_eq!(parse(&no_records).unwrap_err().user_message, "CMP 文件没有翻译条目");
    let no_pair = format!(
        "{HEADER}\n# meta {}\n@ {{\"file\":\"f\",\"entry_id\":\"a\",\"path\":\"$\",\"status\":\"translated\"}}\n",
        meta_text(&document().meta)
    );
    assert_eq!(parse(&no_pair).unwrap_err().user_message, "CMP 第 3 行缺少英文 -> 中文");
    let stray = format!("{HEADER}\n# meta {}\nhello\n", meta_text(&document().meta));
    assert_eq!(parse(&stray).unwrap_err().user_message, "CMP 第 3 行缺少 @ 回填位置");
    let twice = format!("{HEADER}\n# meta {m}\n# meta {m}\n", m = meta_text(&document().meta));
    assert_eq!(parse(&twice).unwrap_err().user_message, "CMP 第 3 行重复定义 meta");
}

#[test]
fn pairs_need_the_arrow_and_two_json_strings() {
    let (source, target) = parse_pair(r#""a \"b\"" -> "c\nd""#).unwrap();
    assert_eq!(source, "a \"b\"");
    assert_eq!(target, "c\nd");
    assert_eq!(parse_pair("").unwrap_err().user_message, "缺少英文原文");
    assert_eq!(parse_pair(r#""a"->"b""#).unwrap_err().user_message, "英文和中文之间必须使用空格、->、空格");
    assert!(parse_pair(r#""a" -> b"#).unwrap_err().user_message.starts_with("中文译文不是有效 JSON 字符串："));
    assert!(parse_pair(r#""a"#).unwrap_err().user_message.starts_with("英文原文不是有效 JSON 字符串："));
}

#[test]
fn writer_refuses_duplicate_places_empty_documents_and_other_versions() {
    let mut twice = document();
    twice.records.push(record("other.snbt", "quest.example", "/text", "x", "y", "translated"));
    assert_eq!(render(&twice).unwrap_err().user_message, "CMP 重复定义同一回填位置");
    let mut empty = document();
    empty.records.clear();
    assert_eq!(render(&empty).unwrap_err().user_message, "CMP 文件没有翻译条目");
    let mut v2 = document();
    v2.meta.version = 2;
    assert_eq!(render(&v2).unwrap_err().user_message, "不支持 CMP 版本 2");
}

#[test]
fn metadata_is_json_and_never_contains_arbitrary_values() {
    let text = render(&document()).unwrap();
    let line = text.lines().find_map(|l| l.strip_prefix("# meta ")).unwrap();
    let value: serde_json::Value = serde_json::from_str(line).unwrap();
    assert_eq!(value["version"], serde_json::Value::from(1));
}
