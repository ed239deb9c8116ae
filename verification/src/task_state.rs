//! The life cycle of a translation task, kept per task book:
//! `created → translating → review_ready → applying → applied`, with
//! `failed` for operations that went wrong. The store decides every
//! transition; the rows are persisted elsewhere between operations.

use crate::cmp::{Document, Record};
use crate::digest::{hex_lower, le_bytes, push_le_u64, push_utf8, sha256_hex, sha256_of};
use crate::error::{AppError, ErrorCode, made};
use crate::text::{lemma_lex_asym, lex_lt, push_str, str_eq, str_less, trim, trimmed};
use vstd::utf8::encode_utf8;
use vstd::prelude::*;

verus! {

#[derive(Clone, Copy, Debug, PartialEq, Eq, Structural)]
pub enum TaskState {
    Created,
    Translating,
    ReviewReady,
    Applying,
    Applied,
    Failed,
}

impl TaskState {
    pub open spec fn name(self) -> Seq<char> {
        match self {
            TaskState::Created => "created"@,
            TaskState::Translating => "translating"@,
            TaskState::ReviewReady => "review_ready"@,
            TaskState::Applying => "applying"@,
            TaskState::Applied => "applied"@,
            TaskState::Failed => "failed"@,
        }
    }

    /// The stored name of the state.
    pub fn as_str(self) -> (s: &'static str)
        ensures
            s@ == self.name(),
    {
        match self {
            TaskState::Created => "created",
            TaskState::Translating => "translating",
            TaskState::ReviewReady => "review_ready",
            TaskState::Applying => "applying",
            TaskState::Applied => "applied",
            TaskState::Failed => "failed",
        }
    }

    /// Only a reviewed result that has not been applied can be applied.
    pub fn can_apply(self) -> (b: bool)
        ensures
            b == (self == TaskState::ReviewReady),
    {
        self == TaskState::ReviewReady
    }

    /// An operation is running in this state.
    pub open spec fn busy(self) -> bool {
        self == TaskState::Translating || self == TaskState::Applying
    }
}

/// Reads a stored state name.
pub fn parse_state(value: &str) -> (r: Result<TaskState, AppError>)
    ensures
        match r {
            Ok(s) => s.name() == value@,
            Err(e) => e.code == ErrorCode::TaskStateSaveFailed && (forall|s: TaskState|
                s.name() != value@),
        },
{
    if str_eq(value, "created") {
        Ok(TaskState::Created)
    } else if str_eq(value, "translating") {
        Ok(TaskState::Translating)
    } else if str_eq(value, "review_ready") {
        Ok(TaskState::ReviewReady)
    } else if str_eq(value, "applying") {
        Ok(TaskState::Applying)
    } else if str_eq(value, "applied") {
        Ok(TaskState::Applied)
    } else if str_eq(value, "failed") {
        Ok(TaskState::Failed)
    } else {
        let mut m = String::new();
        push_str(&mut m, "unknown persisted task state: ");
        push_str(&mut m, value);
        proof {
            assert forall|s: TaskState| s.name() != value@ by {
                assert(s.name() == "created"@ || s.name() == "translating"@ || s.name()
                    == "review_ready"@ || s.name() == "applying"@ || s.name() == "applied"@
                    || s.name() == "failed"@);
            }
        }
        Err(state_storage_error(m.as_str()))
    }
}

#[derive(Clone, Debug)]
pub struct TaskIdentity {
    pub id: String,
    pub task_id: String,
    pub quests_dir: String,
}

#[derive(Clone, Debug)]
pub struct TaskStatus {
    pub task_id: String,
    pub state: TaskState,
    pub can_apply: bool,
}

#[derive(Clone, Debug)]
pub struct ActiveTask {
    pub task_id: String,
    pub state: TaskState,
    pub updated_at: u64,
    pub recoverable: bool,
}

/// One stored task.
#[derive(Clone, Debug)]
pub struct TaskRow {
    pub identity: String,
    pub task_id: String,
    pub quests_dir: String,
    pub state: TaskState,
    pub updated_at: u64,
    /// The source fingerprint of the CMP file whose write-back started; empty
    /// until then.
    pub source_fingerprint: String,
}

pub struct Row {
    pub identity: Seq<char>,
    pub task_id: Seq<char>,
    pub quests_dir: Seq<char>,
    pub state: TaskState,
    pub updated_at: nat,
    pub source_fingerprint: Seq<char>,
}

impl View for TaskRow {
    type V = Row;

    open spec fn view(&self) -> Row {
        Row {
            identity: self.identity@,
            task_id: self.task_id@,
            quests_dir: self.quests_dir@,
            state: self.state,
            updated_at: self.updated_at as nat,
            source_fingerprint: self.source_fingerprint@,
        }
    }
}

pub open spec fn rows_view(v: Seq<TaskRow>) -> Seq<Row> {
    v.map_values(|r: TaskRow| r@)
}

/// The stored tasks, in storage order.
pub struct TaskStateStore {
    pub rows: Vec<TaskRow>,
}

/// No identity is stored twice.
pub open spec fn unique(rows: Seq<Row>) -> bool {
    forall|i: int, j: int|
        0 <= i < j < rows.len() ==> #[trigger] rows[i].identity != #[trigger] rows[j].identity
}

/// At most one operation runs per task book.
pub open spec fn one_operation_per_book(rows: Seq<Row>) -> bool {
    forall|i: int, j: int|
        0 <= i < rows.len() && 0 <= j < rows.len() && i != j && (#[trigger] rows[i]).state.busy()
            && (#[trigger] rows[j]).state.busy() ==> rows[i].quests_dir != rows[j].quests_dir
}

/// The position of `id`.
pub open spec fn index_of(rows: Seq<Row>, id: Seq<char>) -> Option<int> {
    if exists|i: int| 0 <= i < rows.len() && rows[i].identity == id {
        Some(choose|i: int| 0 <= i < rows.len() && rows[i].identity == id)
    } else {
        None
    }
}

/// The state stored for `id`.
pub open spec fn state_of(rows: Seq<Row>, id: Seq<char>) -> Option<TaskState> {
    match index_of(rows, id) {
        Some(i) => Some(rows[i].state),
        None => None,
    }
}

/// The first running operation on the task book `dir`, other than `except`.
pub open spec fn busy_from(rows: Seq<Row>, dir: Seq<char>, except: Option<Seq<char>>, k: int) -> Option<int>
    decreases rows.len() - k,
{
    if 0 <= k < rows.len() {
        if rows[k].quests_dir == dir && rows[k].state.busy() && (match except {
            Some(e) => rows[k].identity != e,
            None => true,
        }) {
            Some(k)
        } else {
            busy_from(rows, dir, except, k + 1)
        }
    } else {
        None
    }
}

pub open spec fn busy_row(rows: Seq<Row>, dir: Seq<char>, except: Option<Seq<char>>) -> Option<int> {
    busy_from(rows, dir, except, 0)
}

proof fn lemma_busy_from_bounds(rows: Seq<Row>, dir: Seq<char>, except: Option<Seq<char>>, k: int)
    requires
        0 <= k,
    ensures
        busy_from(rows, dir, except, k) matches Some(j) ==> k <= j < rows.len(),
    decreases rows.len() - k,
{
    if 0 <= k < rows.len() {
        lemma_busy_from_bounds(rows, dir, except, k + 1);
    }
}

// ---------------------------------------------------------------------------
// Errors.

pub open spec fn storage_user_message() -> Seq<char> {
    "无法保存任务状态，请检查应用数据目录后重试"@
}

/// The failure to store state, with the technical cause.
pub fn state_storage_error(message: &str) -> (e: AppError)
    ensures
        made(e, ErrorCode::TaskStateSaveFailed, storage_user_message(), message@, true, false),
{
    AppError::task_state_save_failed("无法保存任务状态，请检查应用数据目录后重试", message, false)
}

pub open spec fn transition_user_message(state: TaskState) -> Seq<char> {
    match state {
        TaskState::Translating => "翻译任务已在运行，请勿重复启动"@,
        TaskState::Applying => "CMP 正在写回，请勿重复应用"@,
        TaskState::Applied => "该 CMP 已经应用，不能再次写回"@,
        TaskState::Failed => "任务处于失败状态，请先重新导入或重试翻译"@,
        _ => "任务当前状态不允许此操作"@,
    }
}

/// The refusal of `action` in `state`.
pub fn transition_error(action: &str, state: TaskState) -> (e: AppError)
    ensures
        made(
            e,
            ErrorCode::TaskStateConflict,
            transition_user_message(state),
            "action="@ + action@ + " current_state="@ + state.name(),
            false,
            false,
        ),
{
    let message = match state {
        TaskState::Translating => "翻译任务已在运行，请勿重复启动",
        TaskState::Applying => "CMP 正在写回，请勿重复应用",
        TaskState::Applied => "该 CMP 已经应用，不能再次写回",
        TaskState::Failed => "任务处于失败状态，请先重新导入或重试翻译",
        TaskState::Created | TaskState::ReviewReady => "任务当前状态不允许此操作",
    };
    let mut internal = String::new();
    push_str(&mut internal, "action=");
    push_str(&mut internal, action);
    push_str(&mut internal, " current_state=");
    push_str(&mut internal, state.as_str());
    AppError::task_state_conflict(message, internal.as_str())
}

pub open spec fn busy_user_message(state: TaskState) -> Seq<char> {
    if state == TaskState::Applying {
        "当前任务书存在未完成的写回状态。为避免重复覆盖，应用不会自动解锁；请先检查任务书、备份和诊断日志"@
    } else {
        "当前任务书已有翻译任务正在执行，或上次翻译异常中断；请先检查任务状态"@
    }
}

pub open spec fn busy_error(row: Row, dir: Seq<char>) -> (ErrorCode, Seq<char>, Seq<char>) {
    (
        ErrorCode::TaskStateConflict,
        busy_user_message(row.state),
        "busy identity="@ + row.identity + " state="@ + row.state.name() + " quests_dir="@ + dir,
    )
}

pub open spec fn missing_message(id: Seq<char>) -> Seq<char> {
    "task state record is missing: "@ + id
}

pub open spec fn duplicate_message() -> Seq<char> {
    "UNIQUE constraint failed: task_states.identity"@
}

pub open spec fn conflict_internal(row: Row, id: Seq<char>, task_id: Seq<char>, dir: Seq<char>) -> Seq<char> {
    "identity="@ + id + " stored_task_id="@ + row.task_id + " incoming_task_id="@ + task_id
        + " stored_quests_dir="@ + row.quests_dir + " incoming_quests_dir="@ + dir
}

/// An error, by its code, user message and internal message.
pub open spec fn err_is(e: AppError, x: (ErrorCode, Seq<char>, Seq<char>)) -> bool {
    e.code == x.0 && e.user_message@ == x.1 && e.internal_message@ == x.2 && e.retryable == (
    x.0 == ErrorCode::TaskStateSaveFailed) && !e.task_book_modified
}


pub type Fault = (ErrorCode, Seq<char>, Seq<char>);

/// The refusal of a CMP whose identity disagrees with the stored one.
pub open spec fn conflict_fault(row: Row, id: Seq<char>, task_id: Seq<char>, dir: Seq<char>) -> Fault {
    (
        ErrorCode::CmpInvalid,
        "CMP 的任务身份与已保存状态冲突，已拒绝继续操作"@,
        conflict_internal(row, id, task_id, dir),
    )
}

pub open spec fn storage_fault(message: Seq<char>) -> Fault {
    (ErrorCode::TaskStateSaveFailed, storage_user_message(), message)
}

pub open spec fn transition_fault(action: Seq<char>, state: TaskState) -> Fault {
    (
        ErrorCode::TaskStateConflict,
        transition_user_message(state),
        "action="@ + action + " current_state="@ + state.name(),
    )
}

pub open spec fn new_row(id: Seq<char>, task_id: Seq<char>, dir: Seq<char>, state: TaskState, now: nat) -> Row {
    Row { identity: id, task_id, quests_dir: dir, state, updated_at: now, source_fingerprint: Seq::empty() }
}

/// A write-back of a CMP file with the source fingerprint `fp` was already
/// applied to the task book `dir`.
pub open spec fn applied_source(rows: Seq<Row>, dir: Seq<char>, fp: Seq<char>) -> bool {
    fp.len() > 0 && exists|k: int| 0 <= k < rows.len() && (#[trigger] rows[k]).state == TaskState::Applied
        && rows[k].quests_dir == dir && rows[k].source_fingerprint == fp
}

/// The refusal of an unknown identity for a source that was already applied:
/// a CMP file whose task id was edited after its write-back.
pub open spec fn applied_source_fault(id: Seq<char>, dir: Seq<char>) -> Fault {
    (
        ErrorCode::CmpInvalid,
        "CMP 的任务身份与已保存状态冲突，已拒绝继续操作"@,
        "identity="@ + id + " source already applied to quests_dir="@ + dir,
    )
}

/// Adds a row; an identity is stored once.
pub open spec fn insert_row(rows: Seq<Row>, r: Row) -> Result<Seq<Row>, Fault> {
    if index_of(rows, r.identity) is Some {
        Err(storage_fault(duplicate_message()))
    } else {
        Ok(rows.push(r))
    }
}

/// Moves `id` from `from` to `to`.
pub open spec fn set_row(rows: Seq<Row>, id: Seq<char>, from: TaskState, to: TaskState, now: nat) -> Result<Seq<Row>, Fault> {
    match index_of(rows, id) {
        Some(i) => if rows[i].state == from {
            Ok(rows.update(i, Row { state: to, updated_at: now, ..rows[i] }))
        } else {
            Err(transition_fault("更新任务状态"@, rows[i].state))
        },
        None => Err(storage_fault(missing_message(id))),
    }
}

/// The stored state of a task, once its stored identity is checked against `who`.
pub open spec fn checked(rows: Seq<Row>, id: Seq<char>, task_id: Seq<char>, dir: Seq<char>) -> Result<Option<TaskState>, Fault> {
    match index_of(rows, id) {
        None => Ok(None),
        Some(i) => if rows[i].task_id != task_id || rows[i].quests_dir != dir {
            Err(conflict_fault(rows[i], id, task_id, dir))
        } else {
            Ok(Some(rows[i].state))
        },
    }
}

/// No other operation runs on the task book.
pub open spec fn free(rows: Seq<Row>, dir: Seq<char>, except: Option<Seq<char>>) -> Result<(), Fault> {
    match busy_row(rows, dir, except) {
        Some(k) => Err(busy_error(rows[k], dir)),
        None => Ok(()),
    }
}

impl TaskStateStore {
    pub open spec fn view_rows(&self) -> Seq<Row> {
        rows_view(self.rows@)
    }

    /// Identities are unique.
    pub open spec fn wf(&self) -> bool {
        unique(self.view_rows())
    }

    /// An empty store.
    pub fn new() -> (s: Self)
        ensures
            s.wf(),
            s.view_rows() == Seq::<Row>::empty(),
    {
        let s = TaskStateStore { rows: Vec::new() };
        assert(s.view_rows() =~= Seq::<Row>::empty());
        s
    }

    /// The store holding `rows`, which must not repeat an identity.
    pub fn from_rows(rows: Vec<TaskRow>) -> (r: Result<Self, AppError>)
        ensures
            match r {
                Ok(s) => s.wf() && s.view_rows() == rows_view(rows@),
                Err(e) => err_is(e, storage_fault(duplicate_message())) && !unique(rows_view(rows@)),
            },
    {
        let ghost v = rows_view(rows@);
        let mut j: usize = 0;
        while j < rows.len()
            invariant
                j <= rows.len(),
                v == rows_view(rows@),
                forall|a: int, b: int| 0 <= a < b < j ==> v[a].identity != v[b].identity,
            decreases rows.len() - j,
        {
            let mut a: usize = 0;
            while a < j
                invariant
                    a <= j < rows.len(),
                    v == rows_view(rows@),
                    forall|x: int| 0 <= x < a ==> v[x].identity != v[j as int].identity,
                decreases j - a,
            {
                if str_eq(rows[a].identity.as_str(), rows[j].identity.as_str()) {
                    let e = state_storage_error("UNIQUE constraint failed: task_states.identity");
                    assert(v[a as int].identity == v[j as int].identity);
                    return Err(e);
                }
                a += 1;
            }
            j += 1;
        }
        Ok(TaskStateStore { rows })
    }

    fn find(&self, id: &str) -> (r: Option<usize>)
        requires
            self.wf(),
        ensures
            match index_of(self.view_rows(), id@) {
                Some(i) => r == Some(i as usize),
                None => r is None,
            },
            r matches Some(i) ==> i < self.rows.len(),
    {
        let ghost v = self.view_rows();
        let mut i: usize = 0;
        while i < self.rows.len()
            invariant
                i <= self.rows.len(),
                v == self.view_rows(),
                unique(v),
                forall|k: int| 0 <= k < i ==> v[k].identity != id@,
            decreases self.rows.len() - i,
        {
            if str_eq(self.rows[i].identity.as_str(), id) {
                assert(v[i as int].identity == id@);
                let ghost c = choose|k: int| 0 <= k < v.len() && v[k].identity == id@;
                assert(0 <= c < v.len() && v[c].identity == id@);
                assert(c == i) by {
                    if c != i {
                        if c < i {
                            assert(v[c].identity != v[i as int].identity);
                        } else {
                            assert(v[i as int].identity != v[c].identity);
                        }
                    }
                }
                return Some(i);
            }
            i += 1;
        }
        None
    }

    fn first_busy(&self, dir: &str, except: Option<&str>) -> (r: Option<usize>)
        ensures
            r == (match busy_row(self.view_rows(), dir@, match except { Some(e) => Some(e@), None => None }) {
                Some(k) => Some(k as usize),
                None => None::<usize>,
            }),
            r matches Some(k) ==> k < self.rows.len(),
            busy_row(self.view_rows(), dir@, match except { Some(e) => Some(e@), None => None }) matches Some(k)
                ==> 0 <= k < self.rows.len(),
    {
        proof {
            lemma_busy_from_bounds(self.view_rows(), dir@, match except { Some(e) => Some(e@), None => None }, 0);
        }
        let ghost v = self.view_rows();
        let ghost ex = match except { Some(e) => Some(e@), None => None::<Seq<char>> };
        let mut k: usize = 0;
        while k < self.rows.len()
            invariant
                k <= self.rows.len(),
                v == self.view_rows(),
                ex == (match except { Some(e) => Some(e@), None => None::<Seq<char>> }),
                busy_from(v, dir@, ex, k as int) == busy_row(v, dir@, ex),
            decreases self.rows.len() - k,
        {
            let row = &self.rows[k];
            assert(v[k as int] == self.rows@[k as int]@);
            let other = match except {
                Some(e) => !str_eq(row.identity.as_str(), e),
                None => true,
            };
            if str_eq(row.quests_dir.as_str(), dir) && (row.state == TaskState::Translating
                || row.state == TaskState::Applying) && other {
                return Some(k);
            }
            k += 1;
        }
        None
    }

    fn busy_error_at(&self, k: usize, dir: &str) -> (e: AppError)
        requires
            k < self.rows.len(),
        ensures
            err_is(e, busy_error(self.view_rows()[k as int], dir@)),
    {
        let row = &self.rows[k];
        let user = if row.state == TaskState::Applying {
            "当前任务书存在未完成的写回状态。为避免重复覆盖，应用不会自动解锁；请先检查任务书、备份和诊断日志"
        } else {
            "当前任务书已有翻译任务正在执行，或上次翻译异常中断；请先检查任务状态"
        };
        let mut internal = String::new();
        push_str(&mut internal, "busy identity=");
        push_str(&mut internal, row.identity.as_str());
        push_str(&mut internal, " state=");
        push_str(&mut internal, row.state.as_str());
        push_str(&mut internal, " quests_dir=");
        push_str(&mut internal, dir);
        AppError::task_state_conflict(user, internal.as_str())
    }

    fn set_state_at(&mut self, i: usize, to: TaskState, now: u64)
        requires
            old(self).wf(),
            i < old(self).rows.len(),
        ensures
            final(self).wf(),
            final(self).view_rows() == old(self).view_rows().update(
                i as int,
                Row { state: to, updated_at: now as nat, ..old(self).view_rows()[i as int] },
            ),
            forall|x: Seq<char>| index_of(final(self).view_rows(), x) == index_of(old(self).view_rows(), x),
    {
        proof {
            lemma_index_of_update(self.view_rows(), i as int, Row { state: to, updated_at: now as nat, ..self.view_rows()[i as int] });
        }
        let ghost v = self.view_rows();
        let row = TaskRow {
            identity: self.rows[i].identity.clone(),
            task_id: self.rows[i].task_id.clone(),
            quests_dir: self.rows[i].quests_dir.clone(),
            state: to,
            updated_at: now,
            source_fingerprint: self.rows[i].source_fingerprint.clone(),
        };
        self.rows.set(i, row);
        assert(self.view_rows() =~= v.update(i as int, Row { state: to, updated_at: now as nat, ..v[i as int] }));
    }

    fn push_row(&mut self, id: &str, task_id: &str, dir: &str, state: TaskState, now: u64)
        requires
            old(self).wf(),
            index_of(old(self).view_rows(), id@) is None,
        ensures
            final(self).wf(),
            final(self).view_rows() == old(self).view_rows().push(new_row(id@, task_id@, dir@, state, now as nat)),
    {
        let ghost v = self.view_rows();
        self.rows.push(TaskRow {
            identity: id.to_owned(),
            task_id: task_id.to_owned(),
            quests_dir: dir.to_owned(),
            state,
            updated_at: now,
            source_fingerprint: String::new(),
        });
        assert(self.view_rows() =~= v.push(new_row(id@, task_id@, dir@, state, now as nat)));
        assert forall|a: int| 0 <= a < v.len() implies v[a].identity != id@ by {}
    }

    /// Records the source fingerprint `fp` on row `i`.
    fn set_source_at(&mut self, i: usize, fp: &str)
        requires
            old(self).wf(),
            i < old(self).rows.len(),
        ensures
            final(self).wf(),
            final(self).view_rows() == old(self).view_rows().update(
                i as int,
                Row { source_fingerprint: fp@, ..old(self).view_rows()[i as int] },
            ),
    {
        let ghost v = self.view_rows();
        let row = TaskRow {
            identity: self.rows[i].identity.clone(),
            task_id: self.rows[i].task_id.clone(),
            quests_dir: self.rows[i].quests_dir.clone(),
            state: self.rows[i].state,
            updated_at: self.rows[i].updated_at,
            source_fingerprint: fp.to_owned(),
        };
        self.rows.set(i, row);
        assert(self.view_rows() =~= v.update(i as int, Row { source_fingerprint: fp@, ..v[i as int] }));
    }

    /// Whether a write-back of a CMP file with the source fingerprint `fp` was
    /// already applied to the task book `dir`.
    fn has_applied_source(&self, dir: &str, fp: &str) -> (r: bool)
        ensures
            r == applied_source(self.view_rows(), dir@, fp@),
    {
        let ghost v = self.view_rows();
        if fp.is_empty() {
            return false;
        }
        let mut i: usize = 0;
        while i < self.rows.len()
            invariant
                i <= self.rows.len(),
                v == self.view_rows(),
                fp@.len() > 0,
                forall|k: int| 0 <= k < i ==> !((#[trigger] v[k]).state == TaskState::Applied
                    && v[k].quests_dir == dir@ && v[k].source_fingerprint == fp@),
            decreases self.rows.len() - i,
        {
            assert(v[i as int] == self.rows@[i as int]@);
            if self.rows[i].state == TaskState::Applied && str_eq(self.rows[i].quests_dir.as_str(), dir)
                && str_eq(self.rows[i].source_fingerprint.as_str(), fp) {
                return true;
            }
            i += 1;
        }
        false
    }

    fn applied_source_error(id: &str, dir: &str) -> (e: AppError)
        ensures
            err_is(e, applied_source_fault(id@, dir@)),
    {
        let mut m = String::new();
        push_str(&mut m, "identity=");
        push_str(&mut m, id);
        push_str(&mut m, " source already applied to quests_dir=");
        push_str(&mut m, dir);
        AppError::cmp_invalid("CMP 的任务身份与已保存状态冲突，已拒绝继续操作", m.as_str())
    }
}


// ---------------------------------------------------------------------------
// The operations, stated over the rows.

pub proof fn lemma_index_of_push(rows: Seq<Row>, r: Row)
    requires
        unique(rows),
        index_of(rows, r.identity) is None,
    ensures
        unique(rows.push(r)),
        index_of(rows.push(r), r.identity) == Some(rows.len() as int),
        forall|id: Seq<char>| id != r.identity ==> index_of(rows.push(r), id) == index_of(rows, id),
{
    let n = rows.push(r);
    assert forall|i: int, j: int| 0 <= i < j < n.len() implies #[trigger] n[i].identity != #[trigger] n[j].identity by {
        if j == rows.len() {
            assert(n[i] == rows[i]);
        } else {
            assert(n[i] == rows[i] && n[j] == rows[j]);
        }
    }
    assert(n[rows.len() as int].identity == r.identity);
    let c = choose|i: int| 0 <= i < n.len() && n[i].identity == r.identity;
    assert(c == rows.len()) by {
        if c < rows.len() {
            assert(n[c] == rows[c]);
        }
    }
    assert forall|id: Seq<char>| id != r.identity implies index_of(rows.push(r), id) == index_of(rows, id) by {
        if exists|i: int| 0 <= i < rows.len() && rows[i].identity == id {
            let w = choose|i: int| 0 <= i < rows.len() && rows[i].identity == id;
            assert(n[w] == rows[w]);
            let c1 = choose|i: int| 0 <= i < n.len() && n[i].identity == id;
            let c2 = choose|i: int| 0 <= i < rows.len() && rows[i].identity == id;
            assert(c1 == c2) by {
                if c1 != rows.len() {
                    assert(n[c1] == rows[c1]);
                }
                if c1 != c2 {
                    if c1 < c2 {
                        assert(n[c2] == rows[c2]);
                    } else {
                        assert(n[c2] == rows[c2]);
                    }
                }
            }
        } else {
            if exists|i: int| 0 <= i < n.len() && n[i].identity == id {
                let w = choose|i: int| 0 <= i < n.len() && n[i].identity == id;
                assert(w < rows.len());
                assert(n[w] == rows[w]);
            }
        }
    }
}

pub proof fn lemma_index_of_update(rows: Seq<Row>, i: int, r: Row)
    requires
        unique(rows),
        0 <= i < rows.len(),
        r.identity == rows[i].identity,
    ensures
        unique(rows.update(i, r)),
        forall|id: Seq<char>| index_of(rows.update(i, r), id) == index_of(rows, id),
{
    let n = rows.update(i, r);
    assert forall|a: int, b: int| 0 <= a < b < n.len() implies #[trigger] n[a].identity != #[trigger] n[b].identity by {
        assert(n[a].identity == rows[a].identity);
        assert(n[b].identity == rows[b].identity);
    }
    assert forall|id: Seq<char>| index_of(n, id) == index_of(rows, id) by {
        assert forall|k: int| 0 <= k < n.len() implies (n[k].identity == id) == (rows[k].identity == id) by {
            assert(n[k].identity == rows[k].identity);
        }
        if exists|k: int| 0 <= k < rows.len() && rows[k].identity == id {
            let w = choose|k: int| 0 <= k < rows.len() && rows[k].identity == id;
            assert(n[w].identity == id);
        }
        if exists|k: int| 0 <= k < n.len() && n[k].identity == id {
            let w = choose|k: int| 0 <= k < n.len() && n[k].identity == id;
            assert(rows[w].identity == id);
        }
        assert((exists|k: int| 0 <= k < n.len() && n[k].identity == id) == (exists|k: int| 0 <= k < rows.len() && rows[k].identity == id));
        if exists|k: int| 0 <= k < rows.len() && rows[k].identity == id {
            let c1 = choose|k: int| 0 <= k < n.len() && n[k].identity == id;
            let c2 = choose|k: int| 0 <= k < rows.len() && rows[k].identity == id;
            assert(rows[c1].identity == id);
            assert(c1 == c2) by {
                if c1 < c2 {
                    assert(rows[c1].identity != rows[c2].identity);
                } else if c2 < c1 {
                    assert(rows[c2].identity != rows[c1].identity);
                }
            }
        }
    }
}

pub open spec fn reserve_new_spec(rows: Seq<Row>, dir: Seq<char>, task_id: Seq<char>, now: nat) -> Result<Seq<Row>, Fault> {
    match free(rows, dir, None) {
        Err(f) => Err(f),
        Ok(()) => match insert_row(rows, new_row(task_id, task_id, dir, TaskState::Created, now)) {
            Err(f) => Err(f),
            Ok(r1) => set_row(r1, task_id, TaskState::Created, TaskState::Translating, now),
        },
    }
}

pub open spec fn reserve_retry_spec(rows: Seq<Row>, id: Seq<char>, task_id: Seq<char>, dir: Seq<char>, now: nat) -> Result<Seq<Row>, Fault> {
    match free(rows, dir, Some(id)) {
        Err(f) => Err(f),
        Ok(()) => match checked(rows, id, task_id, dir) {
            Err(f) => Err(f),
            Ok(None) => match insert_row(rows, new_row(id, task_id, dir, TaskState::ReviewReady, now)) {
                Err(f) => Err(f),
                Ok(r1) => set_row(r1, id, TaskState::ReviewReady, TaskState::Translating, now),
            },
            Ok(Some(st)) => if st == TaskState::ReviewReady || st == TaskState::Failed {
                let i = index_of(rows, id)->0;
                Ok(rows.update(i, Row { state: TaskState::Translating, updated_at: now, ..rows[i] }))
            } else {
                Err(transition_fault("重试翻译"@, st))
            },
        },
    }
}

pub open spec fn register_spec(rows: Seq<Row>, id: Seq<char>, task_id: Seq<char>, dir: Seq<char>, fp: Seq<char>, now: nat) -> Result<(Seq<Row>, TaskState), Fault> {
    match checked(rows, id, task_id, dir) {
        Err(f) => Err(f),
        Ok(None) => if applied_source(rows, dir, fp) {
            Err(applied_source_fault(id, dir))
        } else {
            match insert_row(rows, new_row(id, task_id, dir, TaskState::ReviewReady, now)) {
                Err(f) => Err(f),
                Ok(r1) => Ok((r1, TaskState::ReviewReady)),
            }
        },
        Ok(Some(st)) => Ok((rows, st)),
    }
}

/// Records on the row of `id` the source fingerprint of its CMP file.
pub open spec fn mark_source(rows: Seq<Row>, id: Seq<char>, fp: Seq<char>) -> Seq<Row> {
    let i = index_of(rows, id)->0;
    rows.update(i, Row { source_fingerprint: fp, ..rows[i] })
}

pub open spec fn begin_apply_spec(rows: Seq<Row>, id: Seq<char>, task_id: Seq<char>, dir: Seq<char>, fp: Seq<char>, now: nat) -> Result<Seq<Row>, Fault> {
    match register_spec(rows, id, task_id, dir, fp, now) {
        Err(f) => Err(f),
        Ok((r1, st)) => if st != TaskState::ReviewReady {
            Err(transition_fault("应用 CMP"@, st))
        } else {
            match free(r1, dir, Some(id)) {
                Err(f) => Err(f),
                Ok(()) => match set_row(r1, id, TaskState::ReviewReady, TaskState::Applying, now) {
                    Err(f) => Err(f),
                    Ok(r2) => Ok(mark_source(r2, id, fp)),
                },
            }
        },
    }
}

/// A translating task of the book `dir` last touched before `cutoff`.
pub open spec fn interrupted(r: Row, dir: Seq<char>, cutoff: nat) -> bool {
    r.quests_dir == dir && r.state == TaskState::Translating && r.updated_at < cutoff
}

pub open spec fn recovered_rows(rows: Seq<Row>, dir: Seq<char>, cutoff: nat, now: nat) -> Seq<Row> {
    rows.map_values(|r: Row| if interrupted(r, dir, cutoff) { Row { state: TaskState::Failed, updated_at: now, ..r } } else { r })
}

pub open spec fn count_interrupted(rows: Seq<Row>, dir: Seq<char>, cutoff: nat) -> nat
    decreases rows.len(),
{
    if rows.len() == 0 {
        0
    } else {
        count_interrupted(rows.drop_last(), dir, cutoff) + if interrupted(rows.last(), dir, cutoff) { 1nat } else { 0nat }
    }
}

pub open spec fn recover_fault(dir: Seq<char>) -> Fault {
    (
        ErrorCode::TaskStateConflict,
        "没有可恢复的中断翻译任务；当前任务可能仍在运行"@,
        "no translating task older than process start for "@ + dir,
    )
}

/// The outcome of an operation on the store: the new rows on success, the
/// error with the rows untouched otherwise.
pub open spec fn outcome<T>(old_rows: Seq<Row>, new_rows: Seq<Row>, r: Result<T, AppError>, spec: Result<Seq<Row>, Fault>) -> bool {
    match spec {
        Ok(rows) => r is Ok && new_rows == rows,
        Err(f) => r matches Err(e) && err_is(e, f) && new_rows == old_rows,
    }
}

impl TaskStateStore {
    fn identity_of(id: &str, task_id: &str, dir: &str) -> (r: TaskIdentity)
        ensures
            r.id@ == id@ && r.task_id@ == task_id@ && r.quests_dir@ == dir@,
    {
        TaskIdentity { id: id.to_owned(), task_id: task_id.to_owned(), quests_dir: dir.to_owned() }
    }

    fn conflict_error(row: &TaskRow, id: &str, task_id: &str, dir: &str) -> (e: AppError)
        ensures
            err_is(e, conflict_fault(row@, id@, task_id@, dir@)),
    {
        let mut m = String::new();
        push_str(&mut m, "identity=");
        push_str(&mut m, id);
        push_str(&mut m, " stored_task_id=");
        push_str(&mut m, row.task_id.as_str());
        push_str(&mut m, " incoming_task_id=");
        push_str(&mut m, task_id);
        push_str(&mut m, " stored_quests_dir=");
        push_str(&mut m, row.quests_dir.as_str());
        push_str(&mut m, " incoming_quests_dir=");
        push_str(&mut m, dir);
        AppError::cmp_invalid("CMP 的任务身份与已保存状态冲突，已拒绝继续操作", m.as_str())
    }

    /// The stored state of the task, once the stored identity agrees.
    fn checked_state(&self, id: &str, task_id: &str, dir: &str) -> (r: Result<Option<usize>, AppError>)
        requires
            self.wf(),
        ensures
            match checked(self.view_rows(), id@, task_id@, dir@) {
                Ok(None) => r == Ok::<Option<usize>, AppError>(None),
                Ok(Some(st)) => r matches Ok(Some(i)) && index_of(self.view_rows(), id@) == Some(i as int) && i < self.rows.len() && self.rows@[i as int].state == st,
                Err(f) => r matches Err(e) && err_is(e, f),
            },
    {
        match self.find(id) {
            None => Ok(None),
            Some(i) => {
                assert(self.view_rows()[i as int] == self.rows@[i as int]@);
                if !str_eq(self.rows[i].task_id.as_str(), task_id) || !str_eq(self.rows[i].quests_dir.as_str(), dir) {
                    Err(Self::conflict_error(&self.rows[i], id, task_id, dir))
                } else {
                    Ok(Some(i))
                }
            },
        }
    }

    fn set_checked(&mut self, id: &str, from: TaskState, to: TaskState, now: u64) -> (r: Result<(), AppError>)
        requires
            old(self).wf(),
        ensures
            final(self).wf(),
            outcome(old(self).view_rows(), final(self).view_rows(), r, set_row(old(self).view_rows(), id@, from, to, now as nat)),
    {
        match self.find(id) {
            None => {
                let mut m = String::new();
                push_str(&mut m, "task state record is missing: ");
                push_str(&mut m, id);
                Err(state_storage_error(m.as_str()))
            },
            Some(i) => {
                assert(self.view_rows()[i as int] == self.rows@[i as int]@);
                if self.rows[i].state != from {
                    Err(transition_error("更新任务状态", self.rows[i].state))
                } else {
                    self.set_state_at(i, to, now);
                    Ok(())
                }
            },
        }
    }

    /// Starts a new translation of the task book `quests_dir` (in canonical
    /// form) under `task_id`, unless another operation runs on that book.
    pub fn reserve_new_translation(&mut self, quests_dir: &str, task_id: &str, now: u64) -> (r: Result<TaskIdentity, AppError>)
        requires
            old(self).wf(),
        ensures
            final(self).wf(),
            outcome(old(self).view_rows(), final(self).view_rows(), r, reserve_new_spec(old(self).view_rows(), quests_dir@, task_id@, now as nat)),
            r matches Ok(who) ==> who.id@ == task_id@ && who.task_id@ == task_id@ && who.quests_dir@ == quests_dir@,
    {
        let ghost v = self.view_rows();
        match self.first_busy(quests_dir, None) {
            Some(k) => return Err(self.busy_error_at(k, quests_dir)),
            None => {},
        }
        if self.find(task_id).is_some() {
            return Err(state_storage_error("UNIQUE constraint failed: task_states.identity"));
        }
        let ghost created = new_row(task_id@, task_id@, quests_dir@, TaskState::Created, now as nat);
        proof {
            lemma_index_of_push(v, created);
            assert(v.push(created)[v.len() as int] == created);
            assert(v.push(created).update(v.len() as int, Row { state: TaskState::Translating, updated_at: now as nat, ..created })
                =~= v.push(new_row(task_id@, task_id@, quests_dir@, TaskState::Translating, now as nat)));
        }
        self.push_row(task_id, task_id, quests_dir, TaskState::Translating, now);
        Ok(Self::identity_of(task_id, task_id, quests_dir))
    }

    /// The translation of `id` finished and its CMP is ready for review.
    pub fn translation_succeeded(&mut self, id: &str, now: u64) -> (r: Result<(), AppError>)
        requires
            old(self).wf(),
        ensures
            final(self).wf(),
            outcome(old(self).view_rows(), final(self).view_rows(), r, set_row(old(self).view_rows(), id@, TaskState::Translating, TaskState::ReviewReady, now as nat)),
    {
        self.set_checked(id, TaskState::Translating, TaskState::ReviewReady, now)
    }

    /// The translation of `id` failed.
    pub fn translation_failed(&mut self, id: &str, now: u64) -> (r: Result<(), AppError>)
        requires
            old(self).wf(),
        ensures
            final(self).wf(),
            outcome(old(self).view_rows(), final(self).view_rows(), r, set_row(old(self).view_rows(), id@, TaskState::Translating, TaskState::Failed, now as nat)),
    {
        self.set_checked(id, TaskState::Translating, TaskState::Failed, now)
    }

    /// The write-back of `id` committed.
    pub fn apply_succeeded(&mut self, id: &str, now: u64) -> (r: Result<(), AppError>)
        requires
            old(self).wf(),
        ensures
            final(self).wf(),
            outcome(old(self).view_rows(), final(self).view_rows(), r, set_row(old(self).view_rows(), id@, TaskState::Applying, TaskState::Applied, now as nat)),
    {
        self.set_checked(id, TaskState::Applying, TaskState::Applied, now)
    }

    /// The write-back of `id` failed: it may be retried only if the task
    /// book was left untouched.
    pub fn apply_failed(&mut self, id: &str, task_book_modified: bool, now: u64) -> (r: Result<(), AppError>)
        requires
            old(self).wf(),
        ensures
            final(self).wf(),
            outcome(old(self).view_rows(), final(self).view_rows(), r, set_row(old(self).view_rows(), id@, TaskState::Applying,
                if task_book_modified { TaskState::Failed } else { TaskState::ReviewReady }, now as nat)),
    {
        let to = if task_book_modified {
            TaskState::Failed
        } else {
            TaskState::ReviewReady
        };
        self.set_checked(id, TaskState::Applying, to, now)
    }
}


// ---------------------------------------------------------------------------
// The identity of the task behind a CMP file.

/// The bytes of the protected fields of the records, each field ended by `0xff`.
pub open spec fn records_bytes(rs: Seq<Record>) -> Seq<u8>
    decreases rs.len(),
{
    if rs.len() == 0 {
        Seq::empty()
    } else {
        records_bytes(rs.drop_last()) + record_bytes(rs.last())
    }
}

pub open spec fn record_bytes(r: Record) -> Seq<u8> {
    encode_utf8(r.file@) + seq![0xffu8] + encode_utf8(r.entry_id@) + seq![0xffu8] + encode_utf8(r.path@)
        + seq![0xffu8] + encode_utf8(r.source@) + seq![0xffu8]
}

fn push_record_bytes(out: &mut Vec<u8>, r: &Record)
    ensures
        final(out)@ == old(out)@ + record_bytes(*r),
{
    push_utf8(out, r.file.as_str());
    out.push(0xff);
    push_utf8(out, r.entry_id.as_str());
    out.push(0xff);
    push_utf8(out, r.path.as_str());
    out.push(0xff);
    push_utf8(out, r.source.as_str());
    out.push(0xff);
    assert(final(out)@ =~= old(out)@ + record_bytes(*r));
}

/// What the identity of an older file without a task id is derived from:
/// everything in it but the translations and their statuses.
pub open spec fn legacy_input(d: Document, dir: Seq<char>) -> Seq<u8> {
    encode_utf8("ftb-translater-legacy-cmp-v1"@) + seq![0u8] + encode_utf8(dir) + seq![0u8]
        + encode_utf8(d.meta.mode@) + seq![0u8] + encode_utf8(d.meta.source_fingerprint@) + seq![0u8]
        + le_bytes(d.meta.total_entries as nat, 8) + records_bytes(d.records@)
}

/// The identity of the task of `d` on the task book `dir`: its task id, or
/// for older files a digest of its protected content.
pub open spec fn identity_of_document(d: Document, dir: Seq<char>) -> Seq<char> {
    if trim(d.meta.task_id@).len() == 0 {
        "legacy-"@ + hex_lower(sha256_of(legacy_input(d, dir)))
    } else {
        trim(d.meta.task_id@)
    }
}

fn legacy_input_bytes(d: &Document, dir: &str) -> (out: Vec<u8>)
    ensures
        out@ == legacy_input(*d, dir@),
{
    let mut out: Vec<u8> = Vec::new();
    push_utf8(&mut out, "ftb-translater-legacy-cmp-v1");
    out.push(0);
    push_utf8(&mut out, dir);
    out.push(0);
    push_utf8(&mut out, d.meta.mode.as_str());
    out.push(0);
    push_utf8(&mut out, d.meta.source_fingerprint.as_str());
    out.push(0);
    push_le_u64(&mut out, d.meta.total_entries as u64);
    let ghost head = out@;
    let mut i: usize = 0;
    while i < d.records.len()
        invariant
            i <= d.records.len(),
            out@ == head + records_bytes(d.records@.take(i as int)),
        decreases d.records.len() - i,
    {
        push_record_bytes(&mut out, &d.records[i]);
        proof {
            let t = d.records@.take(i + 1);
            assert(t.drop_last() =~= d.records@.take(i as int));
            assert(t.last() == d.records@[i as int]);
            assert(records_bytes(t) == records_bytes(d.records@.take(i as int)) + record_bytes(d.records@[i as int]));
        }
        i += 1;
        assert(out@ =~= head + records_bytes(d.records@.take(i as int)));
    }
    assert(d.records@.take(d.records.len() as int) =~= d.records@);
    assert(out@ =~= legacy_input(*d, dir@));
    out
}

impl TaskStateStore {
    /// The identity of the task behind the CMP file `document`, whose task
    /// book `quests_dir` is given in canonical form.
    pub fn identity_for_cmp(document: &Document, quests_dir: &str) -> (r: TaskIdentity)
        ensures
            r.id@ == identity_of_document(*document, quests_dir@),
            r.task_id@ == r.id@,
            r.quests_dir@ == quests_dir@,
    {
        let task_id = trimmed(document.meta.task_id.as_str());
        let id = if task_id.as_str().is_empty() {
            let digest = sha256_hex(legacy_input_bytes(document, quests_dir).as_slice());
            let mut id = String::new();
            push_str(&mut id, "legacy-");
            push_str(&mut id, digest.as_str());
            id
        } else {
            task_id
        };
        Self::identity_of(id.as_str(), id.as_str(), quests_dir)
    }
}


/// A row that is not running leaves the running operations as they were.
proof fn lemma_busy_push(rows: Seq<Row>, r: Row, dir: Seq<char>, except: Option<Seq<char>>, k: int)
    requires
        0 <= k <= rows.len(),
        !r.state.busy(),
    ensures
        busy_from(rows.push(r), dir, except, k) == busy_from(rows, dir, except, k),
    decreases rows.len() - k,
{
    let n = rows.push(r);
    if k < rows.len() {
        assert(n[k] == rows[k]);
        lemma_busy_push(rows, r, dir, except, k + 1);
    } else {
        assert(n[k] == r);
        assert(busy_from(n, dir, except, k + 1) == None::<int>);
    }
}

/// The state and status reported for a task.
pub open spec fn status_of(who: TaskIdentity, st: TaskState, status: TaskStatus) -> bool {
    status.task_id@ == who.task_id@ && status.state == st && status.can_apply == (st == TaskState::ReviewReady)
}

/// The rows after a recovery of the interrupted translations.
proof fn lemma_count_step(rows: Seq<Row>, dir: Seq<char>, cutoff: nat, i: int)
    requires
        0 <= i < rows.len(),
    ensures
        count_interrupted(rows.take(i + 1), dir, cutoff) == count_interrupted(rows.take(i), dir, cutoff)
            + if interrupted(rows[i], dir, cutoff) { 1nat } else { 0nat },
        count_interrupted(rows.take(i), dir, cutoff) <= i,
    decreases i,
{
    assert(rows.take(i + 1).drop_last() =~= rows.take(i));
    if i > 0 {
        lemma_count_step(rows, dir, cutoff, i - 1);
    } else {
        assert(rows.take(0).len() == 0);
    }
}

/// A timestamp, as a number.
pub open spec fn stamp(t: u64) -> nat {
    t as nat
}

/// Storing a new row in state `from` and moving it to `to` stores it in `to`.
proof fn lemma_insert_then_set(v: Seq<Row>, id: Seq<char>, task_id: Seq<char>, dir: Seq<char>, from: TaskState, to: TaskState, now: nat)
    requires
        unique(v),
        index_of(v, id) is None,
    ensures
        insert_row(v, new_row(id, task_id, dir, from, now)) == Ok::<Seq<Row>, Fault>(v.push(new_row(id, task_id, dir, from, now))),
        set_row(v.push(new_row(id, task_id, dir, from, now)), id, from, to, now)
            == Ok::<Seq<Row>, Fault>(v.push(new_row(id, task_id, dir, to, now))),
{
    let r0 = new_row(id, task_id, dir, from, now);
    lemma_index_of_push(v, r0);
    assert(v.push(r0)[v.len() as int] == r0);
    assert(v.push(r0).update(v.len() as int, Row { state: to, updated_at: now, ..r0 })
        =~= v.push(new_row(id, task_id, dir, to, now)));
}

impl TaskStateStore {
    /// Starts translating again the task of a CMP file whose translation is
    /// ready for review or failed, unless another operation runs on its book.
    pub fn reserve_retry_translation(&mut self, document: &Document, quests_dir: &str, now: u64) -> (r: Result<TaskIdentity, AppError>)
        requires
            old(self).wf(),
        ensures
            final(self).wf(),
            outcome(old(self).view_rows(), final(self).view_rows(), r, reserve_retry_spec(old(self).view_rows(),
                identity_of_document(*document, quests_dir@), identity_of_document(*document, quests_dir@), quests_dir@, stamp(now))),
            r matches Ok(who) ==> who.id@ == identity_of_document(*document, quests_dir@) && who.task_id@ == who.id@
                && who.quests_dir@ == quests_dir@,
    {
        let who = Self::identity_for_cmp(document, quests_dir);
        let ghost v = self.view_rows();
        match self.first_busy(quests_dir, Some(who.id.as_str())) {
            Some(k) => return Err(self.busy_error_at(k, quests_dir)),
            None => {},
        }
        match self.checked_state(who.id.as_str(), who.task_id.as_str(), quests_dir) {
            Err(e) => Err(e),
            Ok(None) => {
                proof {
                    lemma_insert_then_set(v, who.id@, who.task_id@, quests_dir@, TaskState::ReviewReady, TaskState::Translating, stamp(now));
                    lemma_index_of_push(v, new_row(who.id@, who.task_id@, quests_dir@, TaskState::ReviewReady, stamp(now)));
                }
                self.push_row(who.id.as_str(), who.task_id.as_str(), quests_dir, TaskState::Translating, now);
                Ok(who)
            },
            Ok(Some(i)) => {
                let st = self.rows[i].state;
                if st == TaskState::ReviewReady || st == TaskState::Failed {
                    self.set_state_at(i, TaskState::Translating, now);
                    Ok(who)
                } else {
                    Err(transition_error("重试翻译", st))
                }
            },
        }
    }

    /// Loads the stored state of the task of a CMP file, first recording it as
    /// ready for review when it was never seen.
    pub fn register_cmp(&mut self, document: &Document, quests_dir: &str, now: u64) -> (r: Result<(TaskIdentity, TaskStatus), AppError>)
        requires
            old(self).wf(),
        ensures
            final(self).wf(),
            ({
                let id = identity_of_document(*document, quests_dir@);
                match register_spec(old(self).view_rows(), id, id, quests_dir@, document.meta.source_fingerprint@, stamp(now)) {
                    Ok((rows, st)) => r matches Ok((who, status)) && final(self).view_rows() == rows
                        && who.id@ == id && who.task_id@ == id && who.quests_dir@ == quests_dir@
                        && status_of(who, st, status),
                    Err(f) => r matches Err(e) && err_is(e, f) && final(self).view_rows() == old(self).view_rows(),
                }
            }),
    {
        let who = Self::identity_for_cmp(document, quests_dir);
        let ghost v = self.view_rows();
        let st = match self.checked_state(who.id.as_str(), who.task_id.as_str(), quests_dir) {
            Err(e) => return Err(e),
            Ok(None) => {
                if self.has_applied_source(quests_dir, document.meta.source_fingerprint.as_str()) {
                    return Err(Self::applied_source_error(who.id.as_str(), quests_dir));
                }
                proof {
                    lemma_index_of_push(v, new_row(who.id@, who.task_id@, quests_dir@, TaskState::ReviewReady, stamp(now)));
                }
                self.push_row(who.id.as_str(), who.task_id.as_str(), quests_dir, TaskState::ReviewReady, now);
                TaskState::ReviewReady
            },
            Ok(Some(i)) => self.rows[i].state,
        };
        let status = TaskStatus { task_id: who.task_id.clone(), state: st, can_apply: st.can_apply() };
        Ok((who, status))
    }

    /// Starts writing back the CMP file of a task that is ready for review,
    /// unless another operation runs on its task book.
    pub fn begin_apply(&mut self, document: &Document, quests_dir: &str, now: u64) -> (r: Result<TaskIdentity, AppError>)
        requires
            old(self).wf(),
        ensures
            final(self).wf(),
            outcome(old(self).view_rows(), final(self).view_rows(), r, begin_apply_spec(old(self).view_rows(),
                identity_of_document(*document, quests_dir@), identity_of_document(*document, quests_dir@), quests_dir@,
                document.meta.source_fingerprint@, stamp(now))),
            r matches Ok(who) ==> who.id@ == identity_of_document(*document, quests_dir@) && who.task_id@ == who.id@
                && who.quests_dir@ == quests_dir@,
    {
        let who = Self::identity_for_cmp(document, quests_dir);
        let ghost v = self.view_rows();
        let ghost r0 = new_row(who.id@, who.task_id@, quests_dir@, TaskState::ReviewReady, stamp(now));
        let fp = document.meta.source_fingerprint.as_str();
        match self.checked_state(who.id.as_str(), who.task_id.as_str(), quests_dir) {
            Err(e) => Err(e),
            Ok(None) => {
                if self.has_applied_source(quests_dir, fp) {
                    return Err(Self::applied_source_error(who.id.as_str(), quests_dir));
                }
                proof {
                    lemma_busy_push(v, r0, quests_dir@, Some(who.id@), 0);
                    lemma_insert_then_set(v, who.id@, who.task_id@, quests_dir@, TaskState::ReviewReady, TaskState::Applying, stamp(now));
                    lemma_index_of_push(v, new_row(who.id@, who.task_id@, quests_dir@, TaskState::Applying, stamp(now)));
                }
                match self.first_busy(quests_dir, Some(who.id.as_str())) {
                    Some(k) => return Err(self.busy_error_at(k, quests_dir)),
                    None => {},
                }
                self.push_row(who.id.as_str(), who.task_id.as_str(), quests_dir, TaskState::Applying, now);
                let n = self.rows.len() - 1;
                self.set_source_at(n, fp);
                Ok(who)
            },
            Ok(Some(i)) => {
                let st = self.rows[i].state;
                if st != TaskState::ReviewReady {
                    return Err(transition_error("应用 CMP", st));
                }
                match self.first_busy(quests_dir, Some(who.id.as_str())) {
                    Some(k) => return Err(self.busy_error_at(k, quests_dir)),
                    None => {},
                }
                self.set_state_at(i, TaskState::Applying, now);
                self.set_source_at(i, fp);
                Ok(who)
            },
        }
    }

    /// Marks as failed the translations of the task book `quests_dir` that were
    /// interrupted: those still translating that were last touched before
    /// `cutoff`, the start of the current process. Refused when there is none.
    pub fn recover_interrupted_translation(&mut self, quests_dir: &str, cutoff: u64, now: u64) -> (r: Result<usize, AppError>)
        requires
            old(self).wf(),
        ensures
            final(self).wf(),
            count_interrupted(old(self).view_rows(), quests_dir@, cutoff as nat) == 0 ==> (r matches Err(e)
                && err_is(e, recover_fault(quests_dir@)) && final(self).view_rows() == old(self).view_rows()),
            count_interrupted(old(self).view_rows(), quests_dir@, cutoff as nat) > 0 ==> (r == Ok::<usize, AppError>(
                count_interrupted(old(self).view_rows(), quests_dir@, cutoff as nat) as usize)
                && final(self).view_rows() == recovered_rows(old(self).view_rows(), quests_dir@, cutoff as nat, now as nat)),
    {
        let ghost v = self.view_rows();
        let mut count: usize = 0;
        let mut i: usize = 0;
        while i < self.rows.len()
            invariant
                self.wf(),
                self.rows.len() == v.len(),
                i <= v.len(),
                count == count_interrupted(v.take(i as int), quests_dir@, cutoff as nat),
                forall|j: int| 0 <= j < i ==> #[trigger] self.view_rows()[j] == recovered_rows(v, quests_dir@, cutoff as nat, now as nat)[j],
                forall|j: int| i <= j < v.len() ==> #[trigger] self.view_rows()[j] == v[j],
            decreases v.len() - i,
        {
            proof {
                lemma_count_step(v, quests_dir@, cutoff as nat, i as int);
            }
            assert(self.view_rows()[i as int] == self.rows@[i as int]@);
            let row = &self.rows[i];
            if str_eq(row.quests_dir.as_str(), quests_dir) && row.state == TaskState::Translating && row.updated_at < cutoff {
                self.set_state_at(i, TaskState::Failed, now);
                assert(self.view_rows().len() == self.rows@.len());
                count += 1;
            }
            i += 1;
        }
        proof {
            assert(v.take(v.len() as int) =~= v);
            assert(self.view_rows() =~= recovered_rows(v, quests_dir@, cutoff as nat, now as nat));
        }
        if count == 0 {
            proof {
                assert forall|j: int| 0 <= j < v.len() implies !interrupted(v[j], quests_dir@, cutoff as nat) by {
                    if interrupted(v[j], quests_dir@, cutoff as nat) {
                        lemma_count_positive(v, quests_dir@, cutoff as nat, j);
                    }
                }
                assert(self.view_rows() =~= v);
            }
            let mut m = String::new();
            push_str(&mut m, "no translating task older than process start for ");
            push_str(&mut m, quests_dir);
            return Err(AppError::task_state_conflict("没有可恢复的中断翻译任务；当前任务可能仍在运行", m.as_str()));
        }
        Ok(count)
    }
}

proof fn lemma_count_positive(rows: Seq<Row>, dir: Seq<char>, cutoff: nat, j: int)
    requires
        0 <= j < rows.len(),
        interrupted(rows[j], dir, cutoff),
    ensures
        count_interrupted(rows, dir, cutoff) > 0,
    decreases rows.len(),
{
    if j < rows.len() - 1 {
        assert(rows.drop_last()[j] == rows[j]);
        lemma_count_positive(rows.drop_last(), dir, cutoff, j);
    }
}


// ---------------------------------------------------------------------------
// The running operations of a task book.

/// An operation running on a task book, as reported.
pub struct Activity {
    pub task_id: Seq<char>,
    pub state: TaskState,
    pub updated_at: nat,
    pub recoverable: bool,
}

impl View for ActiveTask {
    type V = Activity;

    open spec fn view(&self) -> Activity {
        Activity {
            task_id: self.task_id@,
            state: self.state,
            updated_at: self.updated_at as nat,
            recoverable: self.recoverable,
        }
    }
}

/// How a running row is reported; a translation last touched before `started`,
/// when the process started, was interrupted and can be recovered.
pub open spec fn activity(r: Row, started: nat) -> Activity {
    Activity {
        task_id: r.task_id,
        state: r.state,
        updated_at: r.updated_at,
        recoverable: r.state == TaskState::Translating && r.updated_at < started,
    }
}

/// The rows of operations running on the task book `dir`, in storage order.
pub open spec fn running(rows: Seq<Row>, dir: Seq<char>) -> Seq<Row> {
    rows.filter(|r: Row| r.quests_dir == dir && r.state.busy())
}

/// `a` is reported before `b`: older first, then by task id.
pub open spec fn reported_before(a: Activity, b: Activity) -> bool {
    a.updated_at < b.updated_at || (a.updated_at == b.updated_at && lex_lt(a.task_id, b.task_id))
}

/// No activity is reported before the one it follows.
pub open spec fn in_report_order(s: Seq<Activity>) -> bool {
    forall|k: int, l: int| 0 <= k && l == k + 1 && l < s.len() ==> !reported_before(#[trigger] s[l], #[trigger] s[k])
}

pub open spec fn activities_view(s: Seq<ActiveTask>) -> Seq<Activity> {
    s.map_values(|a: ActiveTask| a@)
}

fn reported_before_exec(a: &ActiveTask, b: &ActiveTask) -> (r: bool)
    ensures
        r == reported_before(a@, b@),
{
    a.updated_at < b.updated_at || (a.updated_at == b.updated_at && str_less(a.task_id.as_str(), b.task_id.as_str()))
}

/// Inserting `x` before the first activity that it is reported before keeps the order.
proof fn lemma_insert_in_order(s: Seq<Activity>, p: int, x: Activity)
    requires
        0 <= p <= s.len(),
        in_report_order(s),
        forall|m: int| 0 <= m < p ==> !reported_before(x, #[trigger] s[m]),
        p < s.len() ==> reported_before(x, s[p]),
    ensures
        in_report_order(s.insert(p, x)),
{
    let n = s.insert(p, x);
    assert forall|k: int, l: int| 0 <= k && l == k + 1 && l < n.len() implies !reported_before(#[trigger] n[l], #[trigger] n[k]) by {
        if l < p {
            assert(n[k] == s[k] && n[l] == s[l]);
        } else if l == p {
            assert(n[l] == x && n[k] == s[k]);
        } else if k == p {
            assert(n[k] == x && n[l] == s[p]);
            lemma_lex_asym(x.task_id, s[p].task_id);
        } else {
            assert(n[k] == s[k - 1] && n[l] == s[l - 1]);
        }
    }
}

impl TaskStateStore {
    /// The operations running on the task book `quests_dir`, oldest first,
    /// then by task id; `started` is when the current process started.
    pub fn active_operations(&self, quests_dir: &str, started: u64) -> (out: Vec<ActiveTask>)
        ensures
            activities_view(out@).to_multiset() == running(self.view_rows(), quests_dir@).map_values(
                |r: Row| activity(r, started as nat)).to_multiset(),
            in_report_order(activities_view(out@)),
    {
        broadcast use vstd::seq_lib::group_to_multiset_ensures;
        let ghost v = self.view_rows();
        let ghost f = |r: Row| activity(r, started as nat);
        let ghost pred = |r: Row| r.quests_dir == quests_dir@ && r.state.busy();
        let mut out: Vec<ActiveTask> = Vec::new();
        let mut i: usize = 0;
        assert(activities_view(out@) =~= Seq::<Activity>::empty());
        assert(v.take(0).filter(pred) =~= Seq::<Row>::empty()) by {
            reveal(Seq::filter);
        }
        while i < self.rows.len()
            invariant
                i <= self.rows.len() == v.len(),
                v == self.view_rows(),
                f == (|r: Row| activity(r, started as nat)),
                pred == (|r: Row| r.quests_dir == quests_dir@ && r.state.busy()),
                activities_view(out@).to_multiset() == v.take(i as int).filter(pred).map_values(f).to_multiset(),
                in_report_order(activities_view(out@)),
            decreases self.rows.len() - i,
        {
            let row = &self.rows[i];
            assert(v[i as int] == row@);
            let ghost t = v.take(i + 1);
            proof {
                assert(t.drop_last() =~= v.take(i as int));
                assert(t.last() == v[i as int]);
            }
            if str_eq(row.quests_dir.as_str(), quests_dir) && (row.state == TaskState::Translating
                || row.state == TaskState::Applying) {
                let item = ActiveTask {
                    task_id: row.task_id.clone(),
                    state: row.state,
                    updated_at: row.updated_at,
                    recoverable: row.state == TaskState::Translating && row.updated_at < started,
                };
                let mut p: usize = 0;
                while p < out.len() && !reported_before_exec(&item, &out[p])
                    invariant
                        p <= out.len(),
                        forall|m: int| 0 <= m < p ==> !reported_before(item@, #[trigger] activities_view(out@)[m]),
                    decreases out.len() - p,
                {
                    p += 1;
                }
                let ghost before = out@;
                proof {
                    lemma_insert_in_order(activities_view(before), p as int, item@);
                }
                out.insert(p, item);
                proof {
                    assert(activities_view(out@) =~= activities_view(before).insert(p as int, item@));
                    assert(pred(t.last()));
                    reveal(Seq::filter);
                    assert(t.filter(pred) == t.drop_last().filter(pred).push(t.last()));
                    assert(t.filter(pred) == v.take(i as int).filter(pred).push(v[i as int]));
                    assert(t.filter(pred).map_values(f) =~= v.take(i as int).filter(pred).map_values(f).push(item@));
                    vstd::seq_lib::to_multiset_insert(activities_view(before), p as int, item@);
                    vstd::seq_lib::to_multiset_build(v.take(i as int).filter(pred).map_values(f), item@);
                }
            } else {
                proof {
                    assert(!pred(t.last()));
                    reveal(Seq::filter);
                    assert(t.filter(pred) == t.drop_last().filter(pred));
                    assert(t.filter(pred) == v.take(i as int).filter(pred));
                }
            }
            i += 1;
        }
        assert(v.take(v.len() as int) =~= v);
        out
    }
}


// ---------------------------------------------------------------------------
// Laws of the task life cycle.

proof fn lemma_no_busy(rows: Seq<Row>, dir: Seq<char>, except: Option<Seq<char>>, k: int)
    requires
        0 <= k,
        busy_from(rows, dir, except, k) is None,
    ensures
        forall|j: int| k <= j < rows.len() ==> !(rows[j].quests_dir == dir && (#[trigger] rows[j]).state.busy()
            && (match except {
            Some(e) => rows[j].identity != e,
            None => true,
        })),
    decreases rows.len() - k,
{
    if 0 <= k < rows.len() {
        lemma_no_busy(rows, dir, except, k + 1);
    }
}

proof fn lemma_index_of_some(rows: Seq<Row>, id: Seq<char>)
    ensures
        index_of(rows, id) matches Some(i) ==> 0 <= i < rows.len() && rows[i].identity == id,
        index_of(rows, id) is None ==> forall|j: int| 0 <= j < rows.len() ==> rows[j].identity != id,
{
}

/// Moving a task to a state in which nothing runs keeps at most one operation
/// per task book.
pub proof fn law_settling_keeps_one_operation_per_book(rows: Seq<Row>, id: Seq<char>, from: TaskState, to: TaskState, now: nat)
    requires
        one_operation_per_book(rows),
        !to.busy(),
    ensures
        set_row(rows, id, from, to, now) matches Ok(after) ==> one_operation_per_book(after),
{
    lemma_index_of_some(rows, id);
    if let Ok(after) = set_row(rows, id, from, to, now) {
        let i = index_of(rows, id)->0;
        assert forall|a: int, b: int|
            0 <= a < after.len() && 0 <= b < after.len() && a != b && (#[trigger] after[a]).state.busy()
                && (#[trigger] after[b]).state.busy() implies after[a].quests_dir != after[b].quests_dir by {
            assert(a != i && b != i);
            assert(after[a] == rows[a] && after[b] == rows[b]);
        }
    }
}

/// A new translation keeps at most one operation per task book.
pub proof fn law_new_translation_keeps_one_operation_per_book(rows: Seq<Row>, dir: Seq<char>, task_id: Seq<char>, now: nat)
    requires
        unique(rows),
        one_operation_per_book(rows),
    ensures
        reserve_new_spec(rows, dir, task_id, now) matches Ok(after) ==> one_operation_per_book(after),
{
    if let Ok(after) = reserve_new_spec(rows, dir, task_id, now) {
        lemma_no_busy(rows, dir, None, 0);
        lemma_index_of_some(rows, task_id);
        lemma_insert_then_set(rows, task_id, task_id, dir, TaskState::Created, TaskState::Translating, now);
        let n = rows.len() as int;
        assert(after == rows.push(new_row(task_id, task_id, dir, TaskState::Translating, now)));
        assert forall|a: int, b: int|
            0 <= a < after.len() && 0 <= b < after.len() && a != b && (#[trigger] after[a]).state.busy()
                && (#[trigger] after[b]).state.busy() implies after[a].quests_dir != after[b].quests_dir by {
            if a == n {
                assert(after[b] == rows[b]);
            } else if b == n {
                assert(after[a] == rows[a]);
            } else {
                assert(after[a] == rows[a] && after[b] == rows[b]);
            }
        }
    }
}

/// Starting an operation on a task whose book runs nothing else keeps at most
/// one operation per task book.
proof fn lemma_start_keeps_one_operation(rows: Seq<Row>, i: int, dir: Seq<char>, to: TaskState, now: nat)
    requires
        unique(rows),
        one_operation_per_book(rows),
        0 <= i < rows.len(),
        rows[i].quests_dir == dir,
        busy_row(rows, dir, Some(rows[i].identity)) is None,
    ensures
        one_operation_per_book(rows.update(i, Row { state: to, updated_at: now, ..rows[i] })),
{
    lemma_no_busy(rows, dir, Some(rows[i].identity), 0);
    let after = rows.update(i, Row { state: to, updated_at: now, ..rows[i] });
    assert forall|a: int, b: int|
        0 <= a < after.len() && 0 <= b < after.len() && a != b && (#[trigger] after[a]).state.busy()
            && (#[trigger] after[b]).state.busy() implies after[a].quests_dir != after[b].quests_dir by {
        if a == i {
            assert(after[b] == rows[b]);
            if rows[b].identity == rows[i].identity {
                if b < i {
                    assert(rows[b].identity != rows[i].identity);
                } else {
                    assert(rows[i].identity != rows[b].identity);
                }
            }
        } else if b == i {
            assert(after[a] == rows[a]);
            if rows[a].identity == rows[i].identity {
                if a < i {
                    assert(rows[a].identity != rows[i].identity);
                } else {
                    assert(rows[i].identity != rows[a].identity);
                }
            }
        } else {
            assert(after[a] == rows[a] && after[b] == rows[b]);
        }
    }
}

/// Starting a new task on a book that runs nothing else keeps at most one
/// operation per task book.
proof fn lemma_start_new_keeps_one_operation(rows: Seq<Row>, r: Row, dir: Seq<char>)
    requires
        one_operation_per_book(rows),
        r.quests_dir == dir,
        busy_row(rows, dir, Some(r.identity)) is None,
        index_of(rows, r.identity) is None,
    ensures
        one_operation_per_book(rows.push(r)),
{
    lemma_no_busy(rows, dir, Some(r.identity), 0);
    lemma_index_of_some(rows, r.identity);
    let after = rows.push(r);
    let n = rows.len() as int;
    assert forall|a: int, b: int|
        0 <= a < after.len() && 0 <= b < after.len() && a != b && (#[trigger] after[a]).state.busy()
            && (#[trigger] after[b]).state.busy() implies after[a].quests_dir != after[b].quests_dir by {
        if a == n {
            assert(after[b] == rows[b]);
        } else if b == n {
            assert(after[a] == rows[a]);
        } else {
            assert(after[a] == rows[a] && after[b] == rows[b]);
        }
    }
}

/// Retrying a translation keeps at most one operation per task book.
pub proof fn law_retry_keeps_one_operation_per_book(rows: Seq<Row>, id: Seq<char>, task_id: Seq<char>, dir: Seq<char>, now: nat)
    requires
        unique(rows),
        one_operation_per_book(rows),
    ensures
        reserve_retry_spec(rows, id, task_id, dir, now) matches Ok(after) ==> one_operation_per_book(after),
{
    lemma_index_of_some(rows, id);
    if let Ok(after) = reserve_retry_spec(rows, id, task_id, dir, now) {
        match index_of(rows, id) {
            None => {
                lemma_insert_then_set(rows, id, task_id, dir, TaskState::ReviewReady, TaskState::Translating, now);
                lemma_start_new_keeps_one_operation(rows, new_row(id, task_id, dir, TaskState::Translating, now), dir);
            },
            Some(i) => {
                lemma_start_keeps_one_operation(rows, i, dir, TaskState::Translating, now);
            },
        }
    }
}

/// Starting a write-back keeps at most one operation per task book.
pub proof fn law_apply_keeps_one_operation_per_book(rows: Seq<Row>, id: Seq<char>, task_id: Seq<char>, dir: Seq<char>, fp: Seq<char>, now: nat)
    requires
        unique(rows),
        one_operation_per_book(rows),
    ensures
        begin_apply_spec(rows, id, task_id, dir, fp, now) matches Ok(after) ==> one_operation_per_book(after),
{
    lemma_index_of_some(rows, id);
    if let Ok(after) = begin_apply_spec(rows, id, task_id, dir, fp, now) {
        match index_of(rows, id) {
            None => {
                let r0 = new_row(id, task_id, dir, TaskState::ReviewReady, now);
                lemma_busy_push(rows, r0, dir, Some(id), 0);
                lemma_insert_then_set(rows, id, task_id, dir, TaskState::ReviewReady, TaskState::Applying, now);
                let r1 = new_row(id, task_id, dir, TaskState::Applying, now);
                lemma_start_new_keeps_one_operation(rows, r1, dir);
                lemma_index_of_push(rows, r1);
                lemma_mark_keeps_one_operation(rows.push(r1), id, fp);
            },
            Some(i) => {
                lemma_start_keeps_one_operation(rows, i, dir, TaskState::Applying, now);
                let r1 = Row { state: TaskState::Applying, updated_at: now, ..rows[i] };
                lemma_index_of_update(rows, i, r1);
                lemma_mark_keeps_one_operation(rows.update(i, r1), id, fp);
            },
        }
    }
}

/// Recording a source fingerprint leaves every state and task book as it was.
proof fn lemma_mark_keeps_one_operation(rows: Seq<Row>, id: Seq<char>, fp: Seq<char>)
    requires
        one_operation_per_book(rows),
        index_of(rows, id) is Some,
    ensures
        one_operation_per_book(mark_source(rows, id, fp)),
{
    lemma_index_of_some(rows, id);
    let after = mark_source(rows, id, fp);
    assert forall|a: int, b: int|
        0 <= a < after.len() && 0 <= b < after.len() && a != b && (#[trigger] after[a]).state.busy()
            && (#[trigger] after[b]).state.busy() implies after[a].quests_dir != after[b].quests_dir by {
        assert(rows[a].state.busy() && rows[b].state.busy());
    }
}

/// Recovering interrupted translations keeps at most one operation per task book.
pub proof fn law_recovery_keeps_one_operation_per_book(rows: Seq<Row>, dir: Seq<char>, cutoff: nat, now: nat)
    requires
        one_operation_per_book(rows),
    ensures
        one_operation_per_book(recovered_rows(rows, dir, cutoff, now)),
{
    let after = recovered_rows(rows, dir, cutoff, now);
    assert forall|a: int, b: int|
        0 <= a < after.len() && 0 <= b < after.len() && a != b && (#[trigger] after[a]).state.busy()
            && (#[trigger] after[b]).state.busy() implies after[a].quests_dir != after[b].quests_dir by {
        assert(rows[a].state.busy() && rows[b].state.busy());
    }
}

/// A task whose write-back committed can neither be applied again nor
/// translated again.
pub proof fn law_applied_is_final(rows: Seq<Row>, id: Seq<char>, task_id: Seq<char>, dir: Seq<char>, fp: Seq<char>, now: nat)
    requires
        checked(rows, id, task_id, dir) == Ok::<Option<TaskState>, Fault>(Some(TaskState::Applied)),
    ensures
        begin_apply_spec(rows, id, task_id, dir, fp, now) == Err::<Seq<Row>, Fault>(transition_fault("应用 CMP"@, TaskState::Applied)),
        reserve_retry_spec(rows, id, task_id, dir, now) is Err,
{
}

/// After a failed write-back, the task can be applied again exactly when the
/// failure left the task book untouched.
pub proof fn law_failed_apply_retry(rows: Seq<Row>, id: Seq<char>, task_id: Seq<char>, dir: Seq<char>, fp: Seq<char>, modified: bool, now: nat, later: nat)
    requires
        unique(rows),
        one_operation_per_book(rows),
        checked(rows, id, task_id, dir) == Ok::<Option<TaskState>, Fault>(Some(TaskState::Applying)),
    ensures
        set_row(rows, id, TaskState::Applying, if modified { TaskState::Failed } else { TaskState::ReviewReady }, now) matches Ok(after)
            && (begin_apply_spec(after, id, task_id, dir, fp, later) is Ok <==> !modified),
{
    lemma_index_of_some(rows, id);
    let i = index_of(rows, id)->0;
    let to = if modified { TaskState::Failed } else { TaskState::ReviewReady };
    let after = rows.update(i, Row { state: to, updated_at: now, ..rows[i] });
    lemma_index_of_update(rows, i, Row { state: to, updated_at: now, ..rows[i] });
    assert(set_row(rows, id, TaskState::Applying, to, now) == Ok::<Seq<Row>, Fault>(after));
    assert(after[i].state == to);
    assert(checked(after, id, task_id, dir) == Ok::<Option<TaskState>, Fault>(Some(to)));
    if !modified {
        lemma_busy_from_bounds(after, dir, Some(id), 0);
        if let Some(k) = busy_row(after, dir, Some(id)) {
            lemma_busy_found(after, dir, Some(id), 0);
            assert(k != i);
            assert(after[k] == rows[k]);
            assert(rows[k].quests_dir == rows[i].quests_dir);
        }
    }
}

proof fn lemma_busy_found(rows: Seq<Row>, dir: Seq<char>, except: Option<Seq<char>>, k: int)
    requires
        0 <= k,
    ensures
        busy_from(rows, dir, except, k) matches Some(j) ==> rows[j].quests_dir == dir && rows[j].state.busy()
            && (match except {
            Some(e) => rows[j].identity != e,
            None => true,
        }),
    decreases rows.len() - k,
{
    if 0 <= k < rows.len() {
        lemma_busy_found(rows, dir, except, k + 1);
    }
}


/// A write-back starts exactly when the identity of the CMP file agrees with
/// the stored one, no other operation runs on its task book, and the task is
/// ready for review, or unknown while its source was not already applied to
/// that book. The task is then applying, with the source fingerprint of its
/// CMP file recorded.
pub proof fn law_begin_apply_condition(rows: Seq<Row>, id: Seq<char>, task_id: Seq<char>, dir: Seq<char>, fp: Seq<char>, now: nat)
    requires
        unique(rows),
    ensures
        (begin_apply_spec(rows, id, task_id, dir, fp, now) is Ok) <==> (free(rows, dir, Some(id)) is Ok && match checked(
            rows,
            id,
            task_id,
            dir,
        ) {
            Ok(None) => !applied_source(rows, dir, fp),
            Ok(Some(st)) => st == TaskState::ReviewReady,
            Err(_) => false,
        }),
        begin_apply_spec(rows, id, task_id, dir, fp, now) matches Ok(after) ==> (index_of(after, id) matches Some(k)
            && after[k].state == TaskState::Applying && after[k].source_fingerprint == fp),
{
    lemma_index_of_some(rows, id);
    match index_of(rows, id) {
        None => {
            let r0 = new_row(id, task_id, dir, TaskState::ReviewReady, now);
            lemma_busy_push(rows, r0, dir, Some(id), 0);
            lemma_insert_then_set(rows, id, task_id, dir, TaskState::ReviewReady, TaskState::Applying, now);
            let r1 = new_row(id, task_id, dir, TaskState::Applying, now);
            lemma_index_of_push(rows, r1);
            let r2 = rows.push(r1);
            lemma_index_of_update(r2, rows.len() as int, Row { source_fingerprint: fp, ..r2[rows.len() as int] });
        },
        Some(i) => {
            if rows[i].task_id == task_id && rows[i].quests_dir == dir && rows[i].state == TaskState::ReviewReady {
                let r1 = Row { state: TaskState::Applying, updated_at: now, ..rows[i] };
                lemma_index_of_update(rows, i, r1);
                let r2 = rows.update(i, r1);
                lemma_index_of_update(r2, i, Row { source_fingerprint: fp, ..r2[i] });
            }
        },
    }
}

} // verus!
