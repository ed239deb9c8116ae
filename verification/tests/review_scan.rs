use ftb_translater::cmp::{Document, Meta, Record};
use ftb_translater::error::{AppError, ErrorCode};
use ftb_translater::review::{save_cmp_targets, CmpTargetEdit};
use ftb_translater::scan::{estimated_batches, mode, mode_label, parse_auto, request_failure_status};

fn record(entry_id: &str, source: &str, target: &str, status: &str) -> Record {
    Record {
        file: "lang/en_us.snbt".into(),
        entry_id: entry_id.into(),
        path: "$".into(),
        source: source.into(),
        target: target.into(),
        status: status.into(),
    }
}

fn document() -> Document {
    Document {
        meta: Meta {
            version: 1,
            task_id: "t".into(),
            quests_dir: "/pack/quests".into(),
            mode: "lang".into(),
            source_fingerprint: "f".into(),
            provider: "google_web".into(),
            base_url: "".into(),
            model: "".into(),
            style: "".into(),
            glossary_enabled: false,
            glossary_fingerprint: "".into(),
            total_entries: 2,
            cache_hits: 0,
        },
        records: vec![record("a", "Hello", "你好", "translated"), record("b", "World", "World", "request_failed")],
    }
}

fn edit(index: usize, target: &str) -> CmpTargetEdit {
    CmpTargetEdit { index, target: target.into() }
}

#[test]
fn typed_cmp_target_edits_preserve_identity_and_cannot_bypass_validation() {
    let mut d = document();
    save_cmp_targets(&mut d, "r1", "r1", &vec![edit(0, "您好"), edit(1, "世界")]).unwrap();
    assert_eq!(d.records[0].target, "您好");
    assert_eq!(d.records[0].status, "translated");
    assert_eq!(d.records[0].entry_id, "a");
    assert_eq!(d.records[1].target, "世界");
    assert_eq!(d.records[1].status, "review");
    assert_eq!(d.records[1].source, "World");
}

#[test]
fn stale_or_incomplete_edits_are_refused_and_change_nothing() {
    let check = |e: AppError, user: &str| {
        assert_eq!(e.code, ErrorCode::CmpInvalid);
        assert_eq!(e.user_message, user);
    };
    let mut d = document();
    check(save_cmp_targets(&mut d, "r2", "r1", &vec![edit(0, "x"), edit(1, "y")]).unwrap_err(), "CMP 已被其他编辑器修改，请重新打开后再保存");
    check(save_cmp_targets(&mut d, "r1", "r1", &vec![edit(0, "x")]).unwrap_err(), "CMP 校对表格条目数已变化，请重新打开校对表格");
    check(
        save_cmp_targets(&mut d, "r1", "r1", &vec![edit(1, "x"), edit(0, "y")]).unwrap_err(),
        "CMP 校对表格内容已过期或不属于当前文件，请重新打开",
    );
    check(save_cmp_targets(&mut d, "r1", "r1", &vec![edit(0, "x"), edit(1, "  ")]).unwrap_err(), "第 2 条译文不能为空");
    assert_eq!(d.records[0].target, "你好");
    assert_eq!(d.records[1].status, "request_failed");
}

#[test]
fn scan_settings_and_modes() {
    assert_eq!(parse_auto("auto", 7), Ok(7));
    assert_eq!(parse_auto("12", 7), Ok(12));
    assert_eq!(parse_auto("0", 7).unwrap_err(), "批大小与并发数必须是 auto 或正整数");
    assert_eq!(parse_auto("x", 7).unwrap_err(), "批大小与并发数必须是 auto 或正整数");
    assert_eq!(mode(true, true), Ok("lang"));
    assert_eq!(mode(false, true), Ok("chapters"));
    assert_eq!(mode(false, false).unwrap_err(), "任务书目录中没有可翻译内容");
    assert_eq!(mode_label("lang"), "语言文件");
    assert_eq!(mode_label("chapters"), "章节文件");
    assert_eq!(estimated_batches(0, 20), 0);
    assert_eq!(estimated_batches(41, 20), 3);
    assert_eq!(estimated_batches(40, 20), 2);
}

#[test]
fn failed_requests_are_marked_by_their_cause() {
    let limited = AppError::rate_limited("稍后重试", "429");
    assert_eq!(request_failure_status(&limited), "rate_limited");
    let failed = AppError::provider_failed("失败", "500");
    assert_eq!(request_failure_status(&failed), "request_failed");
}

fn path(parts: &[&str]) -> Vec<String> {
    parts.iter().map(|p| p.to_string()).collect()
}

#[test]
fn task_book_is_looked_for_from_config_and_ftbquests_upward_and_below() {
    let selected = path(&["/", "pack", "config", "ftbquests"]);
    let found = vec![path(&["/", "pack", "config", "ftbquests", "quests"]), path(&["/", "pack", "config", "ftbquests", "x"])];
    let candidates = ftb_translater::scan::task_book_candidates(&selected, &found);
    assert_eq!(candidates, vec![
        path(&["/", "pack", "config", "ftbquests"]),
        path(&["/", "pack", "config", "ftbquests", "quests"]),
        path(&["/", "pack", "config", "ftbquests", "quests"]),
        path(&["/", "pack", "config", "ftbquests", "config", "ftbquests", "quests"]),
        path(&["/", "pack", "config", "ftbquests", "ftbquests", "quests"]),
        path(&["/", "pack", "config", "ftbquests", "quests"]),
        path(&["/", "pack", "config", "ftbquests", "quests"]),
    ]);
}

#[test]
fn a_selected_lang_directory_tries_its_parent_next() {
    let selected = path(&["/", "pack", "quests", "lang"]);
    let candidates = ftb_translater::scan::task_book_candidates(&selected, &vec![]);
    assert_eq!(candidates[0], selected);
    assert_eq!(candidates[1], path(&["/", "pack", "quests"]));
    assert_eq!(candidates[2], path(&["/", "pack", "quests"]));
    assert_eq!(candidates.len(), 6);
    assert_eq!(ftb_translater::scan::first_with_content(&vec![false, false, true, true]), Some(2));
    assert_eq!(ftb_translater::scan::first_with_content(&vec![false, false]), None);
}
