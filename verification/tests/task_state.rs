use ftb_translater::cmp::{Document, Meta, Record};
use ftb_translater::error::ErrorCode;
use ftb_translater::task_state::{parse_state, TaskState, TaskStateStore};

const QUESTS: &str = "/pack/quests";

fn document(task_id: &str, target: &str) -> Document {
    Document {
        meta: Meta {
            version: 1,
            task_id: task_id.into(),
            quests_dir: QUESTS.into(),
            mode: "lang".into(),
            source_fingerprint: "source-fingerprint".into(),
            provider: "google_web".into(),
            base_url: "https://translate.googleapis.com".into(),
            model: "google-web".into(),
            style: "自然中文".into(),
            glossary_enabled: false,
            glossary_fingerprint: String::new(),
            total_entries: 1,
            cache_hits: 0,
        },
        records: vec![Record {
            file: "lang/en_us.snbt".into(),
            entry_id: "title".into(),
            path: "$".into(),
            source: "Hello".into(),
            target: target.into(),
            status: "translated".into(),
        }],
    }
}

fn restarted(store: &TaskStateStore) -> TaskStateStore {
    TaskStateStore::from_rows(store.rows.clone()).unwrap()
}

#[test]
fn concurrent_translation_reservations_allow_only_one_for_a_task_book() {
    let mut store = TaskStateStore::new();
    let first = store.reserve_new_translation(QUESTS, "first", 10);
    let second = store.reserve_new_translation(QUESTS, "second", 10);
    assert!(first.is_ok());
    assert_eq!(second.unwrap_err().code, ErrorCode::TaskStateConflict);
    assert!(store.reserve_new_translation("/other/quests", "third", 10).is_ok());
}

#[test]
fn failed_translation_can_retry_with_the_same_cmp_task_id() {
    let mut store = TaskStateStore::new();
    let identity = store.reserve_new_translation(QUESTS, "translation-task", 10).unwrap();
    store.translation_failed(&identity.id, 11).unwrap();
    let retry = store.reserve_retry_translation(&document("translation-task", "你好"), QUESTS, 12).unwrap();
    assert_eq!(retry.task_id, "translation-task");
    store.translation_succeeded(&retry.id, 13).unwrap();
    let (_, status) = store.register_cmp(&document("translation-task", "你好"), QUESTS, 14).unwrap();
    assert_eq!(status.state, TaskState::ReviewReady);
    assert!(status.can_apply);
}

#[test]
fn explicit_recovery_marks_only_an_older_translation_as_failed() {
    let mut store = TaskStateStore::new();
    store.reserve_new_translation(QUESTS, "interrupted-task", 100).unwrap();
    assert_eq!(store.recover_interrupted_translation(QUESTS, 101, 102).unwrap(), 1);
    store.reserve_new_translation(QUESTS, "replacement-task", 103).unwrap();
    // the replacement started after the cutoff, so it is not interrupted
    assert_eq!(store.recover_interrupted_translation(QUESTS, 101, 104).unwrap_err().code, ErrorCode::TaskStateConflict);
}

#[test]
fn active_operations_distinguish_recoverable_translation_from_writeback() {
    let started = 100;
    let mut store = TaskStateStore::new();
    store.reserve_new_translation(QUESTS, "interrupted-task", 40).unwrap();
    let active = store.active_operations(QUESTS, started);
    assert_eq!(active.len(), 1);
    assert_eq!(active[0].state, TaskState::Translating);
    assert!(active[0].recoverable);
    store.recover_interrupted_translation(QUESTS, started, 110).unwrap();

    store.begin_apply(&document("writeback-task", "你好"), QUESTS, 120).unwrap();
    let active = store.active_operations(QUESTS, started);
    assert_eq!(active.len(), 1);
    assert_eq!(active[0].task_id, "writeback-task");
    assert_eq!(active[0].state, TaskState::Applying);
    assert!(!active[0].recoverable);
}

#[test]
fn successful_apply_is_remembered_after_ui_loss_and_restart() {
    let cmp = document("apply-task", "你好");
    let mut store = TaskStateStore::new();
    let (_, imported) = store.register_cmp(&cmp, QUESTS, 10).unwrap();
    assert_eq!(imported.state, TaskState::ReviewReady);
    let identity = store.begin_apply(&cmp, QUESTS, 11).unwrap();
    store.apply_succeeded(&identity.id, 12).unwrap();
    assert_eq!(store.begin_apply(&cmp, QUESTS, 13).unwrap_err().code, ErrorCode::TaskStateConflict);

    let mut again = restarted(&store);
    let (_, imported_again) = again.register_cmp(&cmp, QUESTS, 14).unwrap();
    assert_eq!(imported_again.state, TaskState::Applied);
    assert!(!imported_again.can_apply);
    assert!(again.begin_apply(&cmp, QUESTS, 15).is_err());
}

#[test]
fn apply_failures_restore_only_safe_retries() {
    let mut store = TaskStateStore::new();
    let safe = document("safe-failure", "你好");
    let safe_identity = store.begin_apply(&safe, QUESTS, 10).unwrap();
    store.apply_failed(&safe_identity.id, false, 11).unwrap();
    assert!(store.begin_apply(&safe, QUESTS, 12).is_ok());

    let modified = document("modified-failure", "你好");
    assert_eq!(store.begin_apply(&modified, QUESTS, 13).unwrap_err().code, ErrorCode::TaskStateConflict);
    store.apply_failed(&safe_identity.id, false, 14).unwrap();
    let modified_identity = store.begin_apply(&modified, QUESTS, 15).unwrap();
    store.apply_failed(&modified_identity.id, true, 16).unwrap();
    assert_eq!(store.begin_apply(&modified, QUESTS, 17).unwrap_err().code, ErrorCode::TaskStateConflict);
}

#[test]
fn old_v1_identity_is_stable_across_target_edits_and_store_restarts() {
    let mut original = document("", "你好");
    let first = TaskStateStore::identity_for_cmp(&original, QUESTS);
    assert!(first.id.starts_with("legacy-"));
    original.records[0].target = "您好".into();
    original.records[0].status = "review".into();
    let second = TaskStateStore::identity_for_cmp(&original, QUESTS);
    assert_eq!(first.id, second.id);
    assert_eq!(first.quests_dir, second.quests_dir);
    original.records[0].source = "Goodbye".into();
    assert_ne!(TaskStateStore::identity_for_cmp(&original, QUESTS).id, first.id);
}

#[test]
fn identity_of_a_file_with_a_task_id_is_that_task_id() {
    let identity = TaskStateStore::identity_for_cmp(&document("task-7", "你好"), QUESTS);
    assert_eq!(identity.id, "task-7");
    assert_eq!(identity.task_id, "task-7");
}

#[test]
fn state_names_read_back() {
    for state in [
        TaskState::Created,
        TaskState::Translating,
        TaskState::ReviewReady,
        TaskState::Applying,
        TaskState::Applied,
        TaskState::Failed,
    ] {
        assert_eq!(parse_state(state.as_str()).unwrap(), state);
    }
    assert_eq!(parse_state("done").unwrap_err().code, ErrorCode::TaskStateSaveFailed);
    assert!(TaskState::ReviewReady.can_apply());
    assert!(!TaskState::Applied.can_apply());
}

#[test]
fn stores_refuse_rows_that_repeat_an_identity() {
    let mut store = TaskStateStore::new();
    store.reserve_new_translation(QUESTS, "t", 1).unwrap();
    let mut rows = store.rows.clone();
    rows.push(rows[0].clone());
    assert!(TaskStateStore::from_rows(rows).is_err());
}

#[test]
fn settled_tasks_cannot_be_settled_again() {
    let mut store = TaskStateStore::new();
    let identity = store.reserve_new_translation(QUESTS, "t", 1).unwrap();
    store.translation_succeeded(&identity.id, 2).unwrap();
    assert_eq!(store.translation_failed(&identity.id, 3).unwrap_err().code, ErrorCode::TaskStateConflict);
    assert!(store.translation_succeeded("missing", 4).is_err());
}

#[test]
fn edited_task_id_of_an_applied_cmp_is_refused() {
    let cmp = document("command-apply-task", "你好");
    let mut store = TaskStateStore::new();
    store.register_cmp(&cmp, QUESTS, 10).unwrap();
    let identity = store.begin_apply(&cmp, QUESTS, 11).unwrap();
    store.apply_succeeded(&identity.id, 12).unwrap();

    let mut again = restarted(&store);
    let (_, reimported) = again.register_cmp(&cmp, QUESTS, 13).unwrap();
    assert_eq!(reimported.state, TaskState::Applied);
    let tampered = document("tampered-apply-task", "你好");
    let refused = again.register_cmp(&tampered, QUESTS, 14).unwrap_err();
    assert_eq!(refused.code, ErrorCode::CmpInvalid);
    assert_eq!(again.begin_apply(&tampered, QUESTS, 15).unwrap_err().code, ErrorCode::CmpInvalid);

    let mut changed = document("next-task", "你好");
    changed.meta.source_fingerprint = "updated-source".into();
    assert_eq!(again.register_cmp(&changed, QUESTS, 16).unwrap().1.state, TaskState::ReviewReady);
}
