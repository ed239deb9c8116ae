//! Structured errors shared by every command.

use vstd::prelude::*;

verus! {

/// Stable error categories that the front end switches on.
#[derive(Clone, Copy, Debug, PartialEq, Eq, Structural)]
pub enum ErrorCode {
    InvalidInput,
    UnsupportedFormat,
    SourceChanged,
    CmpInvalid,
    ProviderFailed,
    RateLimited,
    FormatGuardRejected,
    BackupFailed,
    CommitFailed,
    HistorySaveFailed,
    TaskStateConflict,
    TaskStateSaveFailed,
}

impl ErrorCode {
    /// The snake-case name of each code.
    pub open spec fn name(self) -> Seq<char> {
        match self {
            ErrorCode::InvalidInput => "invalid_input"@,
            ErrorCode::UnsupportedFormat => "unsupported_format"@,
            ErrorCode::SourceChanged => "source_changed"@,
            ErrorCode::CmpInvalid => "cmp_invalid"@,
            ErrorCode::ProviderFailed => "provider_failed"@,
            ErrorCode::RateLimited => "rate_limited"@,
            ErrorCode::FormatGuardRejected => "format_guard_rejected"@,
            ErrorCode::BackupFailed => "backup_failed"@,
            ErrorCode::CommitFailed => "commit_failed"@,
            ErrorCode::HistorySaveFailed => "history_save_failed"@,
            ErrorCode::TaskStateConflict => "task_state_conflict"@,
            ErrorCode::TaskStateSaveFailed => "task_state_save_failed"@,
        }
    }

    /// The stable snake-case name of the code.
    pub fn as_str(self) -> (s: &'static str)
        ensures
            s@ == self.name(),
    {
        match self {
            ErrorCode::InvalidInput => "invalid_input",
            ErrorCode::UnsupportedFormat => "unsupported_format",
            ErrorCode::SourceChanged => "source_changed",
            ErrorCode::CmpInvalid => "cmp_invalid",
            ErrorCode::ProviderFailed => "provider_failed",
            ErrorCode::RateLimited => "rate_limited",
            ErrorCode::FormatGuardRejected => "format_guard_rejected",
            ErrorCode::BackupFailed => "backup_failed",
            ErrorCode::CommitFailed => "commit_failed",
            ErrorCode::HistorySaveFailed => "history_save_failed",
            ErrorCode::TaskStateConflict => "task_state_conflict",
            ErrorCode::TaskStateSaveFailed => "task_state_save_failed",
        }
    }
}

/// An error with a message for the user, one for the logs, and the two flags
/// that decide whether a retry is offered and whether the task book was touched.
#[derive(Clone, Debug)]
pub struct AppError {
    pub code: ErrorCode,
    pub user_message: String,
    pub internal_message: String,
    pub retryable: bool,
    pub task_book_modified: bool,
}

/// The error that a category helper builds: its fields, by view.
pub open spec fn made(
    e: AppError,
    code: ErrorCode,
    user: Seq<char>,
    internal: Seq<char>,
    retryable: bool,
    modified: bool,
) -> bool {
    &&& e.code == code
    &&& e.user_message@ == user
    &&& e.internal_message@ == internal
    &&& e.retryable == retryable
    &&& e.task_book_modified == modified
}

impl AppError {
    pub fn new(
        code: ErrorCode,
        user_message: &str,
        internal_message: &str,
        retryable: bool,
        task_book_modified: bool,
    ) -> (e: Self)
        ensures
            made(e, code, user_message@, internal_message@, retryable, task_book_modified),
    {
        AppError {
            code,
            user_message: user_message.to_owned(),
            internal_message: internal_message.to_owned(),
            retryable,
            task_book_modified,
        }
    }

    pub fn invalid_input(user_message: &str, internal_message: &str) -> (e: Self)
        ensures
            made(e, ErrorCode::InvalidInput, user_message@, internal_message@, false, false),
    {
        Self::new(ErrorCode::InvalidInput, user_message, internal_message, false, false)
    }

    /// The same error with `task_book_modified` replaced.
    pub fn with_task_book_modified(self, task_book_modified: bool) -> (e: Self)
        ensures
            e == (AppError { task_book_modified, ..self }),
    {
        let mut e = self;
        e.task_book_modified = task_book_modified;
        e
    }

    pub fn cmp_invalid(user_message: &str, internal_message: &str) -> (e: Self)
        ensures
            made(e, ErrorCode::CmpInvalid, user_message@, internal_message@, false, false),
    {
        Self::new(ErrorCode::CmpInvalid, user_message, internal_message, false, false)
    }

    pub fn provider_failed(user_message: &str, internal_message: &str) -> (e: Self)
        ensures
            made(e, ErrorCode::ProviderFailed, user_message@, internal_message@, true, false),
    {
        Self::new(ErrorCode::ProviderFailed, user_message, internal_message, true, false)
    }

    pub fn rate_limited(user_message: &str, internal_message: &str) -> (e: Self)
        ensures
            made(e, ErrorCode::RateLimited, user_message@, internal_message@, true, false),
    {
        Self::new(ErrorCode::RateLimited, user_message, internal_message, true, false)
    }

    pub fn source_changed(user_message: &str, internal_message: &str) -> (e: Self)
        ensures
            made(e, ErrorCode::SourceChanged, user_message@, internal_message@, false, false),
    {
        Self::new(ErrorCode::SourceChanged, user_message, internal_message, false, false)
    }

    pub fn format_guard_rejected(user_message: &str, internal_message: &str) -> (e: Self)
        ensures
            made(e, ErrorCode::FormatGuardRejected, user_message@, internal_message@, false, false),
    {
        Self::new(ErrorCode::FormatGuardRejected, user_message, internal_message, false, false)
    }

    pub fn backup_failed(user_message: &str, internal_message: &str) -> (e: Self)
        ensures
            made(e, ErrorCode::BackupFailed, user_message@, internal_message@, true, false),
    {
        Self::new(ErrorCode::BackupFailed, user_message, internal_message, true, false)
    }

    pub fn commit_failed(
        user_message: &str,
        internal_message: &str,
        task_book_modified: bool,
    ) -> (e: Self)
        ensures
            made(e, ErrorCode::CommitFailed, user_message@, internal_message@, true, task_book_modified),
    {
        Self::new(ErrorCode::CommitFailed, user_message, internal_message, true, task_book_modified)
    }

    pub fn history_save_failed(
        user_message: &str,
        internal_message: &str,
        task_book_modified: bool,
    ) -> (e: Self)
        ensures
            made(e, ErrorCode::HistorySaveFailed, user_message@, internal_message@, true, task_book_modified),
    {
        Self::new(ErrorCode::HistorySaveFailed, user_message, internal_message, true, task_book_modified)
    }

    pub fn task_state_conflict(user_message: &str, internal_message: &str) -> (e: Self)
        ensures
            made(e, ErrorCode::TaskStateConflict, user_message@, internal_message@, false, false),
    {
        Self::new(ErrorCode::TaskStateConflict, user_message, internal_message, false, false)
    }

    pub fn task_state_save_failed(
        user_message: &str,
        internal_message: &str,
        task_book_modified: bool,
    ) -> (e: Self)
        ensures
            made(e, ErrorCode::TaskStateSaveFailed, user_message@, internal_message@, true, task_book_modified),
    {
        Self::new(ErrorCode::TaskStateSaveFailed, user_message, internal_message, true, task_book_modified)
    }

    /// The text shown to the user, which is all that the string form of the error exposes.
    pub fn message(&self) -> (s: String)
        ensures
            s@ == self.user_message@,
    {
        self.user_message.clone()
    }
}

} // verus!
