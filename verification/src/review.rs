//! Saving the targets that the user edited in the review table.

use crate::cmp::{invalid, invalid_with, record_view, records_view, refused_with, same, Document, Record, RecordView};
use crate::error::AppError;
use crate::glossary::blank;
use crate::text::{decimal, push_decimal, push_str, str_eq, trimmed};
use vstd::prelude::*;

verus! {

/// The target of the entry at `index` of the review table.
pub struct CmpTargetEdit {
    pub index: usize,
    pub target: String,
}

/// The statuses of entries that kept the English text because the machine
/// translation failed; a human edit of them needs review.
pub open spec fn fallback_status(s: Seq<char>) -> bool {
    s == "rate_limited"@ || s == "request_failed"@ || s == "format_guard"@ || s == "unchanged"@ || s == "fallback"@
}

/// A record with its target replaced.
pub open spec fn edited(r: RecordView, target: Seq<char>) -> RecordView {
    RecordView {
        target,
        status: if r.target != target && fallback_status(r.status) && target != r.source { "review"@ } else { r.status },
        ..r
    }
}

/// The first edit, from `k` on, that is out of place or blank.
pub open spec fn first_bad_edit(edits: Seq<CmpTargetEdit>, k: int) -> Option<int>
    decreases edits.len() - k,
{
    if 0 <= k < edits.len() {
        if edits[k].index != k || blank(edits[k].target@) { Some(k) } else { first_bad_edit(edits, k + 1) }
    } else {
        None
    }
}

/// Why the edits cannot be saved into a file of `n` records whose revision
/// is `revision`, if they cannot.
pub open spec fn edit_problem(n: nat, revision: Seq<char>, expected: Seq<char>, edits: Seq<CmpTargetEdit>) -> Option<(Seq<char>, Seq<char>)> {
    if revision != expected {
        Some(("CMP 已被其他编辑器修改，请重新打开后再保存"@, "CMP revision conflict: expected="@ + expected + " actual="@ + revision))
    } else if edits.len() != n {
        Some(("CMP 校对表格条目数已变化，请重新打开校对表格"@, "submitted edits="@ + decimal(edits.len()) + " cmp records="@ + decimal(n)))
    } else {
        match first_bad_edit(edits, 0) {
            Some(k) => if edits[k].index != k {
                Some(("CMP 校对表格内容已过期或不属于当前文件，请重新打开"@, "submitted index="@ + decimal(edits[k].index as nat)
                    + " expected index="@ + decimal(k as nat)))
            } else {
                Some(same("第 "@ + decimal((k + 1) as nat) + " 条译文不能为空"@))
            },
            None => None,
        }
    }
}

proof fn lemma_first_bad_edit(edits: Seq<CmpTargetEdit>, k: int)
    requires
        0 <= k,
    ensures
        first_bad_edit(edits, k) matches Some(i) ==> k <= i < edits.len() && (edits[i].index != i || blank(edits[i].target@)),
        first_bad_edit(edits, k) is None ==> forall|i: int| #![trigger edits[i]] k <= i < edits.len() ==> edits[i].index == i
            && !blank(edits[i].target@),
    decreases edits.len() - k,
{
    if 0 <= k < edits.len() {
        lemma_first_bad_edit(edits, k + 1);
    }
}

fn find_bad_edit(edits: &Vec<CmpTargetEdit>) -> (r: Option<usize>)
    ensures
        match r {
            Some(k) => first_bad_edit(edits@, 0) == Some(k as int) && k < edits.len(),
            None => first_bad_edit(edits@, 0) is None,
        },
{
    proof {
        lemma_first_bad_edit(edits@, 0);
    }
    let mut k: usize = 0;
    while k < edits.len()
        invariant
            k <= edits.len(),
            first_bad_edit(edits@, 0) == first_bad_edit(edits@, k as int),
        decreases edits.len() - k,
    {
        let t = trimmed(edits[k].target.as_str());
        if edits[k].index != k || t.as_str().is_empty() {
            return Some(k);
        }
        k += 1;
    }
    None
}

fn edit_record(r: &Record, target: &str) -> (out: Record)
    ensures
        record_view(out) == edited(record_view(*r), target@),
{
    let changed = !str_eq(r.target.as_str(), target);
    let s = r.status.as_str();
    let fallback = str_eq(s, "rate_limited") || str_eq(s, "request_failed") || str_eq(s, "format_guard") || str_eq(s, "unchanged")
        || str_eq(s, "fallback");
    let status = if changed && fallback && !str_eq(target, r.source.as_str()) {
        crate::text::owned("review")
    } else {
        r.status.clone()
    };
    Record {
        file: r.file.clone(),
        entry_id: r.entry_id.clone(),
        path: r.path.clone(),
        source: r.source.clone(),
        target: crate::text::owned(target),
        status,
    }
}

fn edit_message(k: usize, edits: &Vec<CmpTargetEdit>) -> (e: AppError)
    requires
        k < edits.len(),
    ensures
        edits@[k as int].index != k ==> refused_with(e, ("CMP 校对表格内容已过期或不属于当前文件，请重新打开"@, "submitted index="@
            + decimal(edits@[k as int].index as nat) + " expected index="@ + decimal(k as nat))),
        edits@[k as int].index == k ==> refused_with(e, same("第 "@ + decimal((k + 1) as nat) + " 条译文不能为空"@)),
{
    if edits[k].index != k {
        let mut m = String::new();
        push_str(&mut m, "submitted index=");
        push_decimal(&mut m, edits[k].index);
        push_str(&mut m, " expected index=");
        push_decimal(&mut m, k);
        invalid_with("CMP 校对表格内容已过期或不属于当前文件，请重新打开", m.as_str())
    } else {
        let mut m = String::new();
        push_str(&mut m, "第 ");
        push_decimal(&mut m, k + 1);
        push_str(&mut m, " 条译文不能为空");
        invalid(m.as_str())
    }
}

/// Writes the edited targets into a CMP document loaded at `revision`, once
/// the edits are checked: the file unchanged since it was opened, one edit
/// per record, in order, none blank. An entry that had kept its English
/// text and now holds another translation is marked for review.
pub fn save_cmp_targets(document: &mut Document, revision: &str, expected_revision: &str, edits: &Vec<CmpTargetEdit>) -> (r: Result<(), AppError>)
    ensures
        match edit_problem(old(document).records@.len(), revision@, expected_revision@, edits@) {
            Some(m) => r matches Err(e) && refused_with(e, m) && *final(document) == *old(document),
            None => r is Ok && final(document).meta == old(document).meta && records_view(final(document).records@) == Seq::new(
                edits@.len(),
                |k: int| edited(records_view(old(document).records@)[k], edits@[k].target@),
            ),
        },
{
    if !str_eq(revision, expected_revision) {
        let mut m = String::new();
        push_str(&mut m, "CMP revision conflict: expected=");
        push_str(&mut m, expected_revision);
        push_str(&mut m, " actual=");
        push_str(&mut m, revision);
        return Err(invalid_with("CMP 已被其他编辑器修改，请重新打开后再保存", m.as_str()));
    }
    if edits.len() != document.records.len() {
        let mut m = String::new();
        push_str(&mut m, "submitted edits=");
        push_decimal(&mut m, edits.len());
        push_str(&mut m, " cmp records=");
        push_decimal(&mut m, document.records.len());
        return Err(invalid_with("CMP 校对表格条目数已变化，请重新打开校对表格", m.as_str()));
    }
    match find_bad_edit(edits) {
        Some(k) => {
            return Err(edit_message(k, edits));
        },
        None => {},
    }
    apply_edits(document, edits);
    Ok(())
}

fn apply_edits(document: &mut Document, edits: &Vec<CmpTargetEdit>)
    requires
        edits.len() == old(document).records.len(),
    ensures
        final(document).meta == old(document).meta,
        records_view(final(document).records@) == Seq::new(
            edits@.len(),
            |k: int| edited(records_view(old(document).records@)[k], edits@[k].target@),
        ),
{
    let ghost before = records_view(document.records@);
    let mut k: usize = 0;
    while k < edits.len()
        invariant
            k <= edits.len() == document.records.len(),
            before.len() == edits.len(),
            document.meta == old(document).meta,
            before == records_view(old(document).records@),
            forall|i: int| 0 <= i < k ==> #[trigger] records_view(document.records@)[i] == edited(before[i], edits@[i].target@),
            forall|i: int| k <= i < edits.len() ==> #[trigger] records_view(document.records@)[i] == before[i],
        decreases edits.len() - k,
    {
        assert(records_view(document.records@)[k as int] == record_view(document.records@[k as int]));
        let r = edit_record(&document.records[k], edits[k].target.as_str());
        let ghost prev = records_view(document.records@);
        let ghost rv = record_view(r);
        document.records.set(k, r);
        assert(records_view(document.records@) =~= prev.update(k as int, rv));
        k += 1;
    }
    assert(records_view(document.records@) =~= Seq::new(
        edits@.len(),
        |k: int| edited(before[k], edits@[k].target@),
    ));
}

} // verus!
