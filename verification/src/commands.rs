//! The requests and responses of the commands that the front end calls.

use crate::review::CmpTargetEdit;
use crate::task_state::{ActiveTask, TaskState};
use vstd::prelude::*;

verus! {

pub struct ScanRequest {
    pub path: String,
    pub batch_size: String,
}

pub struct ScanFileResponse {
    pub path: String,
    pub entry_count: usize,
}

pub struct ScanResponse {
    pub quests_dir: String,
    pub pack_name: String,
    pub mode: String,
    pub mode_label: String,
    pub source: String,
    pub entry_count: usize,
    pub file_count: usize,
    pub files: Vec<ScanFileResponse>,
    pub estimated_batches: usize,
}

pub struct TranslateRequest {
    pub quests_dir: String,
    pub retry_cmp_path: Option<String>,
    pub api_key: String,
    pub provider: String,
    pub base_url: String,
    pub model: String,
    pub style: String,
    pub batch_size: String,
    pub concurrency: String,
    pub glossary_enabled: bool,
    pub glossary_path: String,
}

pub struct TranslateResponse {
    pub accepted: bool,
    pub task_id: String,
}

pub struct LoadCmpRequest {
    pub cmp_path: String,
}

pub struct CmpEntryResponse {
    pub index: usize,
    pub entry_id: String,
    pub path: String,
    pub file: String,
    pub source: String,
    pub target: String,
    pub status: String,
}

pub struct LoadCmpResponse {
    pub entries: Vec<CmpEntryResponse>,
    pub task_id: String,
    pub task_state: TaskState,
    pub can_apply: bool,
    pub cmp_revision: String,
}

pub struct SaveCmpTargetsRequest {
    pub cmp_path: String,
    pub expected_revision: String,
    pub edits: Vec<CmpTargetEdit>,
}

pub struct SaveCmpTargetsResponse {
    pub saved: bool,
    pub entries: usize,
    pub cmp_revision: String,
}

pub struct CmpScopeRequest {
    pub cmp_path: String,
    pub quests_dir: String,
    pub cmp_revision: String,
}

pub struct ValidateCmpRequest {
    pub cmp_path: String,
    pub quests_dir: String,
    pub cmp_revision: String,
    pub edits: Vec<CmpTargetEdit>,
}

pub struct RecoverTranslationRequest {
    pub quests_dir: String,
}

pub struct RecoverTranslationResponse {
    pub recovered: usize,
}

pub struct InspectTaskStateRequest {
    pub quests_dir: String,
}

pub struct InspectTaskStateResponse {
    pub activities: Vec<ActiveTask>,
}

/// A refused request, with the same message for the user and the logs.
pub fn invalid_input(message: &str) -> (e: crate::error::AppError)
    ensures
        crate::error::made(e, crate::error::ErrorCode::InvalidInput, message@, message@, false, false),
{
    crate::error::AppError::invalid_input(message, message)
}

/// The rows of the review table of a CMP document, numbered in order.
pub fn entry_rows(records: &Vec<crate::cmp::Record>) -> (rows: Vec<CmpEntryResponse>)
    ensures
        rows@.len() == records@.len(),
        forall|i: int| 0 <= i < rows@.len() ==> {
            &&& (#[trigger] rows@[i]).index == i
            &&& rows@[i].entry_id@ == records@[i].entry_id@
            &&& rows@[i].path@ == records@[i].path@
            &&& rows@[i].file@ == records@[i].file@
            &&& rows@[i].source@ == records@[i].source@
            &&& rows@[i].target@ == records@[i].target@
            &&& rows@[i].status@ == records@[i].status@
        },
{
    let mut rows: Vec<CmpEntryResponse> = Vec::new();
    let mut i: usize = 0;
    while i < records.len()
        invariant
            i <= records.len(),
            rows@.len() == i,
            forall|k: int| 0 <= k < i ==> {
                &&& (#[trigger] rows@[k]).index == k
                &&& rows@[k].entry_id@ == records@[k].entry_id@
                &&& rows@[k].path@ == records@[k].path@
                &&& rows@[k].file@ == records@[k].file@
                &&& rows@[k].source@ == records@[k].source@
                &&& rows@[k].target@ == records@[k].target@
                &&& rows@[k].status@ == records@[k].status@
            },
        decreases records.len() - i,
    {
        let r = &records[i];
        rows.push(CmpEntryResponse {
            index: i,
            entry_id: r.entry_id.clone(),
            path: r.path.clone(),
            file: r.file.clone(),
            source: r.source.clone(),
            target: r.target.clone(),
            status: r.status.clone(),
        });
        i += 1;
    }
    rows
}

} // verus!
