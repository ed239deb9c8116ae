use ftb_translater::retry::{openai_start, openai_step, retry_step, OpenAiState, Reply, Step};
use ftb_translater::providers::{concurrency_limit, normalize, requires_api_key, split_marked_translation, split_text};

#[test]
fn splits_google_markers_back_into_entries() {
    let markers = vec!["⟪FTB_TRANSLATER_BATCH_0⟫".to_string(), "⟪FTB_TRANSLATER_BATCH_1⟫".to_string()];
    let text = "⟪FTB_TRANSLATER_BATCH_0⟫制作表格\n⟪FTB_TRANSLATER_BATCH_1⟫击败巨龙";
    assert_eq!(split_marked_translation(text, &markers).unwrap(), vec!["制作表格", "击败巨龙"]);
}

#[test]
fn long_text_split_preserves_placeholder() {
    let text = format!("{}⟨P_123⟩{}", "A".repeat(20), "B".repeat(20));
    let chunks = split_text(&text, 25);
    assert_eq!(chunks.concat(), text);
    assert!(chunks.iter().all(|chunk| !chunk.contains('⟨') || chunk.contains("⟨P_123⟩")));
}

#[test]
fn markers_that_are_lost_or_reordered_are_refused() {
    let markers = vec!["<0>".to_string(), "<1>".to_string()];
    assert_eq!(split_marked_translation("<0>a", &markers).unwrap_err(), "Google 网页翻译未保留批次标记");
    assert_eq!(split_marked_translation("<1>b\n<0>a", &markers).unwrap_err(), "Google 网页翻译打乱了批次标记");
}

#[test]
fn splits_after_sentence_breaks() {
    let chunks = split_text("One two. Three four five six", 12);
    assert_eq!(chunks, vec!["One two. ", "Three four ", "five six"]);
    assert_eq!(split_text("", 5), vec![String::new()]);
}

#[test]
fn providers_are_normalized_and_described() {
    assert_eq!(normalize("  deepl ").unwrap(), "deepl");
    assert_eq!(normalize("bing").unwrap_err(), "不支持的翻译提供商：bing");
    assert!(!requires_api_key("google_web"));
    assert!(requires_api_key("deepl"));
    assert_eq!(concurrency_limit("deepl_web"), Some(1));
    assert_eq!(concurrency_limit("openai_compatible"), None);
}

#[test]
fn parses_fenced_openai_json() {
    let text = ftb_translater::providers::json_object_text("```json\n{\"a\":\"甲\"}\n```");
    let map: std::collections::HashMap<String, String> = serde_json::from_str(&text).unwrap();
    assert_eq!(map["a"], "甲");
}

#[test]
fn answers_keep_only_their_outer_object() {
    assert_eq!(ftb_translater::providers::json_object_text("  Sure: {\"a\":\"{b}\"} done "), "{\"a\":\"{b}\"}");
    assert_eq!(ftb_translater::providers::json_object_text("```\n{\"x\":1}```"), "{\"x\":1}");
    assert_eq!(ftb_translater::providers::json_object_text(" no braces "), "no braces");
}

#[test]
fn web_requests_pack_pieces_in_order() {
    let batch = vec![
        ("a".to_string(), "x".repeat(10)),
        ("b".to_string(), "y".repeat(25)),
        ("c".to_string(), "z".repeat(3)),
    ];
    let requests = ftb_translater::providers::web_requests(&batch, 20, 2, 30);
    let shape = requests
        .iter()
        .map(|r| r.iter().map(|(id, p)| format!("{id}{}", p.chars().count())).collect::<Vec<_>>())
        .collect::<Vec<_>>();
    let all: Vec<(String, String)> = requests.concat();
    assert_eq!(all.iter().filter(|(id, _)| id == "b").map(|(_, p)| p.len()).sum::<usize>(), 25);
    assert_eq!(shape[0][0], "a10");
    assert!(requests.iter().all(|r| !r.is_empty()));
    assert!(requests.iter().all(|r| r.len() == 1 || r.iter().map(|(_, p)| p.chars().count() + 2).sum::<usize>() <= 30));
}

fn state_after(step: (Step, OpenAiState)) -> (String, OpenAiState) {
    let label = match step.0 {
        Step::Send => "send".to_string(),
        Step::Wait(m) => format!("wait {m}"),
        Step::Succeeded => "ok".to_string(),
        Step::Failed(m) => format!("failed {m}"),
    };
    (label, step.1)
}

#[test]
fn openai_drops_response_format_once_when_the_service_refuses_it() {
    let ids = vec!["a".to_string()];
    let refused = Reply::Status { code: 400, body: "unknown field response_format".into(), message: "HTTP 400: x".into() };
    let (label, state) = state_after(openai_step(&openai_start(), &refused, &ids));
    assert_eq!(label, "send");
    assert!(!state.use_format);
    assert_eq!(state.attempt, 1);
    let (label, state) = state_after(openai_step(&state, &refused, &ids));
    assert_eq!(label, "wait 1600");
    assert_eq!(state.last, "HTTP 400: x");
    let answer = Reply::Answer { keys: vec!["a".into(), "b".into()] };
    let (label, _) = state_after(openai_step(&state, &answer, &ids));
    assert_eq!(label, "ok");
}

#[test]
fn openai_retries_three_times_and_reports_the_last_failure() {
    let ids = vec!["a".to_string(), "b".to_string()];
    let partial = Reply::Answer { keys: vec!["a".into()] };
    let (label, state) = state_after(openai_step(&openai_start(), &partial, &ids));
    assert_eq!(label, "wait 800");
    let network = Reply::Network { message: "timed out".into() };
    let (label, state) = state_after(openai_step(&state, &network, &ids));
    assert_eq!(label, "wait 1600");
    let (label, _) = state_after(openai_step(&state, &partial, &ids));
    assert_eq!(label, "failed OpenAI 兼容接口返回内容缺少条目");
    let unreadable = Reply::Unreadable { message: "OpenAI 兼容接口返回内容为空".into() };
    let (label, _) = state_after(openai_step(&openai_start(), &unreadable, &ids));
    assert_eq!(label, "failed OpenAI 兼容接口返回内容为空");
    let other = Reply::Status { code: 500, body: "response_format".into(), message: "HTTP 500: e".into() };
    let (label, _) = state_after(openai_step(&openai_start(), &other, &ids));
    assert_eq!(label, "wait 800");
}

#[test]
fn other_services_wait_longer_between_three_attempts() {
    assert!(matches!(retry_step(0, false, "HTTP 503: busy"), Step::Wait(1000)));
    assert!(matches!(retry_step(1, false, "HTTP 503: busy"), Step::Wait(2000)));
    assert!(matches!(retry_step(2, false, "HTTP 503: busy"), Step::Failed(m) if m == "HTTP 503: busy"));
    assert!(matches!(retry_step(1, true, ""), Step::Succeeded));
}
