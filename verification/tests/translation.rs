use ftb_translater::apply_order::{apply_step, ApplyPhase};
use ftb_translater::cmp::Record;
use ftb_translater::entries::{prepare_entry, Entry, Item};
use ftb_translater::error::AppError;
use ftb_translater::rich_text::{Document, Json, Member};
use ftb_translater::snbt::LangValue;
use ftb_translater::storage::Settings;
use ftb_translater::translation::{
    batches, cache_key, concurrency, copy_item, fit_to_provider, merge_retry, plan, records_of_run, retry_locations, settle,
    text_of_entry, Event, Tally,
};
use ftb_translater::writeback::{apply_lang_targets, review_for_writeback};
use sha2::Digest;

fn json(value: serde_json::Value) -> Json {
    match value {
        serde_json::Value::Null => Json::Null,
        serde_json::Value::Bool(b) => Json::Bool(b),
        serde_json::Value::Number(n) => Json::Number(n.to_string()),
        serde_json::Value::String(s) => Json::Str(s),
        serde_json::Value::Array(v) => Json::Array(v.into_iter().map(json).collect()),
        serde_json::Value::Object(o) => {
            Json::Object(o.into_iter().map(|(key, value)| Member { key, value: json(value) }).collect())
        }
    }
}

fn component(text: &str) -> Option<Document> {
    serde_json::from_str::<serde_json::Value>(text).ok().and_then(|value| Document::from_json(json(value)))
}

fn prepared(sources: &[(&str, &str)]) -> (Vec<Entry>, Vec<Item>) {
    let mut entries = vec![];
    let mut items = vec![];
    for (index, (id, source)) in sources.iter().enumerate() {
        let (entry, units) = prepare_entry(id.to_string(), source.to_string(), index, component(source), None);
        entries.push(entry);
        items.extend(units);
    }
    (entries, items)
}

fn openai() -> Settings {
    Settings {
        provider: "openai_compatible".into(),
        base_url: "https://api.deepseek.com".into(),
        model: "deepseek-chat".into(),
        ..Settings::default()
    }
}

fn sha_hex(text: &str) -> String {
    hex::encode(sha2::Sha256::digest(text.as_bytes()))
}

#[test]
fn disabled_glossary_keeps_legacy_cache_key() {
    let settings = openai();
    let legacy = format!(
        "{{\"model\":\"deepseek-chat\",\"source_text\":\"Mekanism\",\"style\":{},\"target_locale\":\"zh_cn\"}}",
        serde_json::to_string(&settings.style).unwrap()
    );
    assert_eq!(cache_key("Mekanism", &settings, None), sha_hex(&legacy));

    let mut enabled = settings;
    enabled.glossary_enabled = true;
    enabled.glossary_fingerprint = "custom-content-hash".into();
    assert_ne!(cache_key("Mekanism", &enabled, None), cache_key("Mekanism", &Settings::default(), None));
}

#[test]
fn rich_text_cache_does_not_reuse_legacy_whole_json_results() {
    let settings = openai();
    let source = r#"{"text":"Open guide","color":"gold"}"#;
    let legacy = format!(
        "{{\"model\":\"deepseek-chat\",\"source_text\":{},\"style\":{},\"target_locale\":\"zh_cn\"}}",
        serde_json::to_string(source).unwrap(),
        serde_json::to_string(&settings.style).unwrap()
    );
    let doc = component(source);
    assert!(doc.is_some());
    assert_ne!(cache_key(source, &settings, doc.as_ref()), sha_hex(&legacy));
}

#[test]
fn other_providers_key_by_provider_model_and_base_url() {
    let mut settings = openai();
    settings.provider = "deepl".into();
    settings.model = "m".into();
    settings.base_url = "https://x.test//".into();
    let expected = format!(
        "{{\"model\":\"deepl:m:https://x.test\",\"source_text\":\"A\",\"style\":{},\"target_locale\":\"zh_cn\"}}",
        serde_json::to_string(&settings.style).unwrap()
    );
    assert_eq!(cache_key("A", &settings, None), sha_hex(&expected));
}

#[test]
fn answers_are_restored_and_failures_keep_the_source() {
    let (_, items) = prepared(&[("a", "Hello %s"), ("b", "World %d")]);
    let batch = vec![copy_item(&items[0]), copy_item(&items[1])];
    let answer = vec![
        (items[0].id.clone(), items[0].protected.replace("Hello", "你好")),
        (items[1].id.clone(), "lost the placeholder".to_string()),
    ];
    let mut tally = Tally::new();
    let events = tally.absorb(&batch, &Ok(answer));
    assert_eq!(tally.unit_results[0].1, "你好 %s");
    assert_eq!(tally.unit_results[1].1, "World %d");
    assert_eq!(tally.failed_units, vec![items[1].id.clone()]);
    assert_eq!(tally.failed_entries, vec!["b".to_string()]);
    assert_eq!(tally.failure_statuses, vec![("b".to_string(), "format_guard".to_string())]);
    assert_eq!(events.len(), 3);
    assert!(matches!(&events[0], Event::Preview { entry_id, target, .. } if entry_id == "a" && target == "你好 %s"));
    assert!(matches!(&events[1], Event::Progress { stage, done } if stage == "translating" && *done == 1));
    assert!(matches!(&events[2], Event::Progress { stage, done } if stage == "format_guard" && *done == 2));

    let failed = tally.absorb(&batch, &Err(AppError::rate_limited("稍后", "429")));
    assert_eq!(failed.len(), 2);
    assert!(matches!(&failed[1], Event::Progress { stage, done } if stage == "rate_limited" && *done == 4));
    assert_eq!(tally.failure_statuses.last().unwrap().1, "rate_limited");
}

#[test]
fn planning_uses_the_cache_and_limits_retries() {
    let (entries, items) = prepared(&[("a", "Alpha"), ("b", "Beta"), ("c", "Gamma")]);
    let cached = vec![None, Some("贝塔".to_string()), None];
    let p = plan(&entries, &items, &cached, &vec![]);
    assert_eq!(p.hits, 1);
    assert_eq!(p.results, vec![("b".to_string(), "贝塔".to_string())]);
    assert_eq!(p.pending.iter().map(|x| x.entry_id.as_str()).collect::<Vec<_>>(), ["a", "c"]);
    let retry = plan(&entries, &items, &cached, &vec![("c".to_string(), "$".to_string())]);
    assert_eq!(retry.pending.iter().map(|x| x.entry_id.as_str()).collect::<Vec<_>>(), ["c"]);
}

#[test]
fn batches_keep_order_and_size() {
    let (_, items) = prepared(&[("a", "A"), ("b", "B"), ("c", "C"), ("d", "D"), ("e", "E")]);
    let bs = batches(&items, 2);
    assert_eq!(bs.iter().map(|b| b.len()).collect::<Vec<_>>(), [2, 2, 1]);
    assert_eq!(bs[2][0].entry_id, "e");
}

#[test]
fn concurrency_is_bounded() {
    assert_eq!(concurrency("auto", "openai_compatible"), Ok(6));
    assert_eq!(concurrency("20", "openai_compatible"), Ok(12));
    assert_eq!(concurrency("3", "deepl"), Ok(3));
    assert_eq!(concurrency("auto", "google_web"), Ok(1));
    assert!(concurrency("x", "deepl").is_err());
}

#[test]
fn web_providers_translate_without_glossary_or_tuning() {
    let mut s = openai();
    s.provider = "google_web".into();
    s.glossary_enabled = true;
    s.batch_size = "40".into();
    fit_to_provider(&mut s);
    assert!(!s.glossary_enabled);
    assert_eq!(s.batch_size, "auto");
    let mut t = openai();
    t.batch_size = "40".into();
    fit_to_provider(&mut t);
    assert_eq!(t.batch_size, "40");
}

fn rec(entry_id: &str, target: &str, status: &str) -> Record {
    Record {
        file: "lang/en_us.snbt".into(),
        entry_id: entry_id.into(),
        path: "$".into(),
        source: "S".into(),
        target: target.into(),
        status: status.into(),
    }
}

#[test]
fn retries_replace_only_rate_limited_records() {
    let previous = vec![rec("a", "甲", "translated"), rec("b", "S", "rate_limited"), rec("c", "S", "rate_limited")];
    let places = retry_locations(&previous);
    assert_eq!(places, vec![("b".to_string(), "$".to_string()), ("c".to_string(), "$".to_string())]);
    let generated = vec![rec("a", "新", "translated"), rec("b", "乙", "translated")];
    let merged = merge_retry(&previous, &generated, &places);
    assert_eq!(merged.iter().map(|r| r.target.as_str()).collect::<Vec<_>>(), ["甲", "乙", "S"]);
    assert_eq!(merged[2].status, "rate_limited");
}

#[test]
fn entries_settle_by_the_format_guard() {
    let (entries, _) = prepared(&[("a", "Alpha")]);
    let c = settle(&entries[0], "阿尔法".into(), false, vec![]);
    assert_eq!(c.text, "阿尔法");
    assert_eq!(c.cache.as_deref(), Some("阿尔法"));
    let w = settle(&entries[0], "阿尔法".into(), false, vec!["换行数量不一致".into()]);
    assert_eq!(w.text, "Alpha");
    assert!(w.cache.is_none());
    let same = settle(&entries[0], "Alpha".into(), false, vec![]);
    assert!(same.cache.is_none());
    let (text, failed) = text_of_entry(&entries[0], &vec![], &vec![]);
    assert_eq!(text, "Alpha");
    assert!(failed);
}

#[test]
fn run_records_carry_targets_and_statuses() {
    let (entries, items) = prepared(&[("a", "Alpha"), ("b", "Beta"), ("c", "Gamma")]);
    let texts = vec!["阿尔法".to_string(), "Beta".to_string(), "伽马".to_string()];
    let flagged = vec![false, false, true];
    let docs = vec![None, None, None];
    let statuses = vec![("c".to_string(), "request_failed".to_string())];
    let records = records_of_run("lang", &entries, &items, &texts, &flagged, &statuses, &docs).unwrap();
    assert_eq!(records.iter().map(|r| r.status.as_str()).collect::<Vec<_>>(), ["translated", "unchanged", "request_failed"]);
    assert_eq!(records[0].file, "lang/en_us.snbt");
    assert_eq!(records[0].target, "阿尔法");
}

#[test]
fn writeback_checks_each_record() {
    let (_, items) = prepared(&[("a", "Alpha"), ("b", "Beta")]);
    let good = vec![rec2("a", "Alpha", "阿尔法", "translated"), rec2("b", "Beta", "Beta", "request_failed")];
    let guard = vec![vec![], vec![]];
    let reviewed = review_for_writeback("lang", &good, &items, &guard).unwrap();
    assert_eq!(reviewed.unit_targets.len(), 2);
    assert_eq!(reviewed.pending_reviews, vec!["b".to_string()]);
    let blank = vec![rec2("a", "Alpha", " ", "translated"), rec2("b", "Beta", "Beta", "translated")];
    assert_eq!(review_for_writeback("lang", &blank, &items, &guard).unwrap_err().user_message, "CMP 译文不能为空：a $");
    let guarded = vec![vec!["换行数量不一致".to_string(), "格式码不一致".to_string()], vec![]];
    let e = review_for_writeback("lang", &good, &items, &guarded).unwrap_err();
    assert_eq!(e.user_message, "CMP 译文未通过格式守卫：a $（换行数量不一致；格式码不一致）");
    let twice = vec![rec2("a", "Alpha", "甲", "translated"), rec2("a", "Alpha", "乙", "translated")];
    assert_eq!(review_for_writeback("lang", &twice, &items, &guard).unwrap_err().user_message, "CMP 缺少一个或多个回填位置");
    assert!(review_for_writeback("lang", &good[..1].to_vec(), &items, &vec![vec![]]).is_err());
}

fn rec2(entry_id: &str, source: &str, target: &str, status: &str) -> Record {
    Record {
        file: "lang/en_us.snbt".into(),
        entry_id: entry_id.into(),
        path: "$".into(),
        source: source.into(),
        target: target.into(),
        status: status.into(),
    }
}

#[test]
fn language_values_take_their_translation_in_shape() {
    let mut map = vec![
        ("a".to_string(), LangValue::Text("A".into())),
        ("b".to_string(), LangValue::Lines(vec!["B1".into(), "B2".into()])),
        ("c".to_string(), LangValue::Text("C".into())),
    ];
    apply_lang_targets(&mut map, &vec![("a".into(), "甲".into()), ("b".into(), "乙一\n乙二\n".into())]);
    assert_eq!(map[0].1, LangValue::Text("甲".into()));
    assert_eq!(map[1].1, LangValue::Lines(vec!["乙一".into(), "乙二".into(), "".into()]));
    assert_eq!(map[2].1, LangValue::Text("C".into()));
}

fn unit_targets(items: &[Item], targets: &[&str]) -> Vec<(String, String)> {
    items.iter().zip(targets).map(|(item, t)| (item.id.clone(), t.to_string())).collect()
}

#[test]
fn writeback_renders_entries_and_reports_pending_reviews() {
    let (entries, items) = prepared(&[("greet", "Hello"), ("color", "Use §aGreen"), ("keep", "Keep")]);
    let targets = ftb_translater::writeback::render_targets(&entries, &unit_targets(&items, &["你好", "使用 §a绿色", "Keep"])).unwrap();
    assert_eq!(targets, vec!["你好", "使用 §a绿色", "Keep"]);
    let none = vec![None, None, None];
    let written =
        ftb_translater::writeback::writeback_results(&entries, &targets, &vec!["keep".to_string()], &none, &none).unwrap();
    assert_eq!(written.results, vec![
        ("greet".to_string(), "你好".to_string()),
        ("color".to_string(), "使用 §a绿色".to_string()),
        ("keep".to_string(), "Keep".to_string()),
    ]);
    assert_eq!(written.warnings, vec![("keep".to_string(), "机器翻译失败或未通过格式守卫，CMP 仍保留英文原文".to_string())]);
    assert_eq!(written.failed, vec![("keep".to_string(), "Keep".to_string(), "Keep".to_string())]);
    assert_eq!(ftb_translater::writeback::count_unchanged(&entries, &written.results), 1);
}

#[test]
fn writeback_refuses_an_entry_that_fails_the_format_guard() {
    let (entries, items) = prepared(&[("greet", "Hello"), ("color", "Use §aGreen")]);
    let targets = ftb_translater::writeback::render_targets(&entries, &unit_targets(&items, &["你好", "错误地删除颜色码"])).unwrap();
    let none = vec![None, None];
    let error = ftb_translater::writeback::writeback_results(&entries, &targets, &vec![], &none, &none).unwrap_err();
    assert_eq!(error.code, ftb_translater::error::ErrorCode::FormatGuardRejected);
    assert!(error.user_message.starts_with("CMP 回填后的完整条目未通过格式守卫：color（"));

    let missing = ftb_translater::writeback::render_targets(&entries, &unit_targets(&items[..1], &["你好"])).unwrap_err();
    assert_eq!(missing.code, ftb_translater::error::ErrorCode::CmpInvalid);
    assert!(missing.internal_message.starts_with("render CMP entry: "));
}

#[test]
fn chapter_replacements_are_grouped_by_file_in_order() {
    let segment = |path: &str, index: usize, id: &str| ftb_translater::chapters::Segment {
        path: path.into(),
        key: "title".into(),
        source: "x".into(),
        start: 0,
        end: 0,
        quote: '"',
        index,
        cache_id: id.into(),
    };
    let segments = vec![segment("a.snbt", 0, "a:0:title"), segment("b.snbt", 0, "b:0:title"), segment("a.snbt", 1, "a:1:title")];
    let results = vec![("a:0:title".to_string(), "甲".to_string()), ("a:1:title".to_string(), "乙".to_string())];
    let groups = ftb_translater::writeback::group_replacements(&segments, &results);
    assert_eq!(groups, vec![
        ("a.snbt".to_string(), vec![(0, "甲".to_string()), (1, "乙".to_string())]),
        ("b.snbt".to_string(), vec![(0, String::new())]),
    ]);
}

#[test]
fn cmp_files_of_another_book_or_mode_are_refused() {
    let ok = ftb_translater::writeback::check_task_book("/pack/quests", "/pack/quests", "lang", "lang");
    assert!(ok.is_ok());
    let other = ftb_translater::writeback::check_task_book("/a/quests", "/b/quests", "lang", "lang").unwrap_err();
    assert_eq!(other.user_message, "CMP 不属于当前扫描的任务书目录");
    assert_eq!(other.internal_message, "recorded=/a/quests current=/b/quests");
    let mode = ftb_translater::writeback::check_task_book("/a", "/a", "lang", "chapters").unwrap_err();
    assert_eq!(mode.user_message, "CMP 的任务书模式与当前目录不一致");
}

#[test]
fn the_unit_log_keeps_texts_and_latest_statuses() {
    let (_, items) = prepared(&[("greet", "Hello"), ("bye", "Bye")]);
    let results = vec![(items[0].id.clone(), "你好".to_string())];
    let statuses = vec![("bye".to_string(), "rate_limited".to_string()), ("bye".to_string(), "request_failed".to_string())];
    let log = ftb_translater::translation::unit_logs(&items, &results, &statuses);
    assert_eq!(log.len(), 2);
    assert_eq!((log[0].target.as_str(), log[0].status.as_str()), ("你好", "translated"));
    assert_eq!((log[1].target.as_str(), log[1].status.as_str()), ("Bye", "request_failed"));
    assert_eq!(log[1].entry_id, "bye");
}

#[test]
fn a_dry_run_counts_guard_refusals_and_unchanged_entries() {
    let (entries, items) = prepared(&[("greet", "Hello"), ("color", "Use §aGreen"), ("keep", "Keep")]);
    let targets =
        ftb_translater::writeback::render_targets(&entries, &unit_targets(&items, &["你好", "错误地删除颜色码", "Keep"])).unwrap();
    let none = vec![None, None, None];
    let counted = ftb_translater::writeback::dry_run(&entries, &targets, &none, &none);
    assert_eq!(counted.applicable, 2);
    assert_eq!(counted.guard_failures, 1);
    assert_eq!(counted.unchanged, 1);
    assert_eq!(counted.issues.len(), 1);
    assert!(counted.issues[0].starts_with("CMP 回填后的完整条目未通过格式守卫：color（"));
}

#[test]
fn retries_need_a_rate_limited_record() {
    let limited = vec![
        Record { file: "f".into(), entry_id: "a".into(), path: "$".into(), source: "A".into(), target: "A".into(), status: "rate_limited".into() },
        Record { file: "f".into(), entry_id: "b".into(), path: "$".into(), source: "B".into(), target: "乙".into(), status: "translated".into() },
    ];
    assert_eq!(ftb_translater::translation::retry_places(&limited).unwrap(), vec![("a".to_string(), "$".to_string())]);
    assert_eq!(ftb_translater::translation::retry_places(&limited[1..].to_vec()).unwrap_err(), "CMP 中没有可重试的限流条目");
}

#[test]
fn apply_writes_only_after_checks_and_backup_and_rolls_back_a_failed_write() {
    assert_eq!(apply_step(ApplyPhase::Validate, false, 2), ApplyPhase::Refused);
    assert_eq!(apply_step(ApplyPhase::Validate, true, 2), ApplyPhase::Backup);
    assert_eq!(apply_step(ApplyPhase::Backup, false, 2), ApplyPhase::Refused);
    assert_eq!(apply_step(ApplyPhase::Backup, true, 2), ApplyPhase::Write(0));
    assert_eq!(apply_step(ApplyPhase::Write(0), true, 2), ApplyPhase::Write(1));
    assert_eq!(apply_step(ApplyPhase::Write(1), false, 2), ApplyPhase::Rollback(2));
    assert_eq!(apply_step(ApplyPhase::Rollback(2), true, 2), ApplyPhase::Failed);
    assert_eq!(apply_step(ApplyPhase::Write(1), true, 2), ApplyPhase::Record);
    assert_eq!(apply_step(ApplyPhase::Record, false, 2), ApplyPhase::Done);
    assert_eq!(apply_step(ApplyPhase::Backup, true, 0), ApplyPhase::Record);
}
