use ftb_translater::error::{AppError, ErrorCode};

#[test]
fn string_compatibility_exposes_only_the_existing_user_message() {
    let error = AppError::cmp_invalid("CMP 文件头无效", "unexpected header bytes");
    assert_eq!(error.message(), "CMP 文件头无效");
    assert_eq!(String::from(error), "CMP 文件头无效");
}

#[test]
fn category_helpers_set_retry_and_writeback_semantics() {
    let rate_limit = AppError::rate_limited("HTTP 429", "quota");
    assert!(rate_limit.retryable);
    assert!(!rate_limit.task_book_modified);

    let history = AppError::history_save_failed("保存历史失败", "disk full", true);
    assert_eq!(history.code, ErrorCode::HistorySaveFailed);
    assert!(history.retryable);
    assert!(history.task_book_modified);
}

#[test]
fn codes_have_stable_snake_case_names() {
    assert_eq!(ErrorCode::CommitFailed.as_str(), "commit_failed");
    assert_eq!(ErrorCode::TaskStateConflict.as_str(), "task_state_conflict");
    assert_eq!(ErrorCode::InvalidInput.as_str(), "invalid_input");
}

#[test]
fn commit_failure_keeps_both_messages_and_the_modified_flag() {
    let error = AppError::commit_failed("无法写入输出", "permission denied", true);
    assert_eq!(error.code, ErrorCode::CommitFailed);
    assert_eq!(error.user_message, "无法写入输出");
    assert_eq!(error.internal_message, "permission denied");
    assert!(error.retryable);
    assert!(error.task_book_modified);
    let cleared = error.with_task_book_modified(false);
    assert!(!cleared.task_book_modified);
    assert_eq!(cleared.user_message, "无法写入输出");
}

#[test]
fn validation_errors_are_not_retryable() {
    for error in [
        AppError::invalid_input("a", "b"),
        AppError::source_changed("a", "b"),
        AppError::format_guard_rejected("a", "b"),
        AppError::cmp_invalid("a", "b"),
    ] {
        assert!(!error.retryable);
        assert!(!error.task_book_modified);
    }
    assert!(AppError::provider_failed("a", "b").retryable);
    assert!(AppError::backup_failed("a", "b").retryable);
}
