//! The CMP review file (version 1): a header, a JSON `meta` line, and for each
//! entry a JSON location line followed by `"source" -> "target"`, grouped by
//! file under `## file` lines.

use crate::error::{AppError, ErrorCode, made};
use crate::json::{json_leading_string, json_quoted, json_string_read, quote_json, read_json_string, read_leading_json_string};
use crate::text::{starts, without_bom, chars_of, decimal, decimal_u32, lemma_lex_asym, lex_lt, push_decimal, push_decimal_u32, push_str, str_eq, str_less, str_starts_with, string_of_range, trim, trimmed, strings_view};
use vstd::prelude::*;

verus! {

/// What a CMP file says about the translation run that produced it.
#[derive(Clone, Debug)]
pub struct Meta {
    pub version: u32,
    pub task_id: String,
    pub quests_dir: String,
    pub mode: String,
    pub source_fingerprint: String,
    pub provider: String,
    pub base_url: String,
    pub model: String,
    pub style: String,
    pub glossary_enabled: bool,
    pub glossary_fingerprint: String,
    pub total_entries: usize,
    pub cache_hits: usize,
}

/// One reviewed entry.
#[derive(Clone, Debug)]
pub struct Record {
    pub file: String,
    pub entry_id: String,
    pub path: String,
    pub source: String,
    pub target: String,
    pub status: String,
}

/// A whole CMP file.
#[derive(Clone, Debug)]
pub struct Document {
    pub meta: Meta,
    pub records: Vec<Record>,
}

/// The location line of an entry.
#[derive(Clone, Debug)]
pub struct Location {
    pub file: String,
    pub entry_id: String,
    pub path: String,
    pub status: String,
}

/// The first line of every CMP file.
pub open spec fn header() -> Seq<char> {
    "# FTB Translater CMP v1"@
}

/// The statuses that a version 1 file may hold.
pub open spec fn status_ok(s: Seq<char>) -> bool {
    s == "translated"@ || s == "unchanged"@ || s == "review"@ || s == "rate_limited"@
        || s == "request_failed"@ || s == "format_guard"@ || s == "fallback"@
}

/// Whether `status` is one that a version 1 file may hold.
pub fn supported_status(status: &str) -> (b: bool)
    ensures
        b == status_ok(status@),
{
    str_eq(status, "translated") || str_eq(status, "unchanged") || str_eq(status, "review")
        || str_eq(status, "rate_limited") || str_eq(status, "request_failed") || str_eq(
        status,
        "format_guard",
    ) || str_eq(status, "fallback")
}

/// A refused CMP file, with the same text for the user and the logs.
pub fn invalid(message: &str) -> (e: AppError)
    ensures
        made(e, ErrorCode::CmpInvalid, message@, message@, false, false),
{
    AppError::cmp_invalid(message, message)
}

/// A refused CMP file.
pub fn invalid_with(user_message: &str, internal_message: &str) -> (e: AppError)
    ensures
        made(e, ErrorCode::CmpInvalid, user_message@, internal_message@, false, false),
{
    AppError::cmp_invalid(user_message, internal_message)
}

/// The error of a refused CMP file whose message is `m`.
pub open spec fn refused(e: AppError, m: Seq<char>) -> bool {
    made(e, ErrorCode::CmpInvalid, m, m, false, false)
}

/// Two records fill the same place.
pub open spec fn same_place(a: Record, b: Record) -> bool {
    a.entry_id@ == b.entry_id@ && a.path@ == b.path@
}

/// Record `i` has an unsupported status or repeats an earlier place.
pub open spec fn bad_record(rs: Seq<Record>, i: int) -> bool {
    !status_ok(rs[i].status@) || exists|j: int| 0 <= j < i && same_place(#[trigger] rs[j], rs[i])
}

/// The first bad record at or after `k`.
pub open spec fn first_bad(rs: Seq<Record>, k: int) -> Option<int>
    decreases rs.len() - k,
{
    if 0 <= k < rs.len() {
        if bad_record(rs, k) {
            Some(k)
        } else {
            first_bad(rs, k + 1)
        }
    } else {
        None
    }
}

/// Why a document cannot be written, if it cannot.
pub open spec fn document_problem(d: Document) -> Option<Seq<char>> {
    if d.meta.version != 1 {
        Some("不支持 CMP 版本 "@ + crate::text::decimal_u32(d.meta.version))
    } else if d.records@.len() == 0 {
        Some("CMP 文件没有翻译条目"@)
    } else {
        match first_bad(d.records@, 0) {
            Some(i) => if !status_ok(d.records@[i].status@) {
                Some("CMP 包含不支持的状态："@ + d.records@[i].status@)
            } else {
                Some("CMP 重复定义同一回填位置"@)
            },
            None => None,
        }
    }
}

proof fn lemma_first_bad_bounds(rs: Seq<Record>, k: int)
    requires
        0 <= k,
    ensures
        first_bad(rs, k) matches Some(i) ==> k <= i < rs.len() && bad_record(rs, i),
        first_bad(rs, k) is None ==> forall|i: int| k <= i < rs.len() ==> !bad_record(rs, i),
    decreases rs.len() - k,
{
    if 0 <= k < rs.len() {
        lemma_first_bad_bounds(rs, k + 1);
    }
}

/// Whether two records fill the same place.
fn places_equal(a: &Record, b: &Record) -> (r: bool)
    ensures
        r == same_place(*a, *b),
{
    str_eq(a.entry_id.as_str(), b.entry_id.as_str()) && str_eq(a.path.as_str(), b.path.as_str())
}

/// The position of the first bad record, if any.
fn find_bad(rs: &Vec<Record>) -> (r: Option<usize>)
    ensures
        match first_bad(rs@, 0) {
            Some(i) => r == Some(i as usize) && 0 <= i < rs.len(),
            None => r is None,
        },
        r matches Some(j) ==> j < rs.len(),
{
    proof {
        lemma_first_bad_bounds(rs@, 0);
    }
    let mut i: usize = 0;
    while i < rs.len()
        invariant
            i <= rs.len(),
            first_bad(rs@, 0) == first_bad(rs@, i as int),
        decreases rs.len() - i,
    {
        let mut bad = !supported_status(rs[i].status.as_str());
        let mut j: usize = 0;
        while j < i && !bad
            invariant
                j <= i < rs.len(),
                !bad ==> forall|x: int| 0 <= x < j ==> !same_place(rs@[x], rs@[i as int]),
                bad ==> bad_record(rs@, i as int),
                !bad ==> status_ok(rs@[i as int].status@),
            decreases i - j,
        {
            if places_equal(&rs[j], &rs[i]) {
                bad = true;
            }
            j += 1;
        }
        if bad {
            return Some(i);
        }
        assert(!bad_record(rs@, i as int));
        i += 1;
    }
    None
}

/// Checks that a document can be written: version 1, at least one entry,
/// only supported statuses, and no place filled twice.
pub fn validate_document(document: &Document) -> (r: Result<(), AppError>)
    ensures
        match document_problem(*document) {
            None => r is Ok,
            Some(m) => r matches Err(e) && refused(e, m),
        },
{
    if document.meta.version != 1 {
        let mut m = String::new();
        push_str(&mut m, "不支持 CMP 版本 ");
        crate::text::push_decimal_u32(&mut m, document.meta.version);
        return Err(invalid(m.as_str()));
    }
    if document.records.len() == 0 {
        return Err(invalid("CMP 文件没有翻译条目"));
    }
    match find_bad(&document.records) {
        None => Ok(()),
        Some(i) => {
            if !supported_status(document.records[i].status.as_str()) {
                let mut m = String::new();
                push_str(&mut m, "CMP 包含不支持的状态：");
                push_str(&mut m, document.records[i].status.as_str());
                Err(invalid(m.as_str()))
            } else {
                Err(invalid("CMP 重复定义同一回填位置"))
            }
        },
    }
}


// ---------------------------------------------------------------------------
// Writing.

pub open spec fn flag(b: bool) -> Seq<char> {
    if b { "true"@ } else { "false"@ }
}

/// The `meta` object, its fields in declaration order, as serde_json writes it.
pub open spec fn meta_json(m: Meta) -> Seq<char> {
    meta_head(m) + meta_middle(m) + meta_tail(m)
}

pub open spec fn meta_head(m: Meta) -> Seq<char> {
    "{\"version\":"@ + decimal_u32(m.version) + ",\"task_id\":"@ + json_quoted(m.task_id@) + ",\"quests_dir\":"@
        + json_quoted(m.quests_dir@) + ",\"mode\":"@ + json_quoted(m.mode@)
}

pub open spec fn meta_middle(m: Meta) -> Seq<char> {
    ",\"source_fingerprint\":"@ + json_quoted(m.source_fingerprint@) + ",\"provider\":"@ + json_quoted(m.provider@)
        + ",\"base_url\":"@ + json_quoted(m.base_url@) + ",\"model\":"@ + json_quoted(m.model@) + ",\"style\":"@
        + json_quoted(m.style@)
}

pub open spec fn meta_tail(m: Meta) -> Seq<char> {
    ",\"glossary_enabled\":"@ + flag(m.glossary_enabled) + ",\"glossary_fingerprint\":"@ + json_quoted(m.glossary_fingerprint@)
        + ",\"total_entries\":"@ + decimal(m.total_entries as nat) + ",\"cache_hits\":"@ + decimal(m.cache_hits as nat) + "}"@
}

/// The location object of a record.
pub open spec fn location_json(r: Record) -> Seq<char> {
    "{\"file\":"@ + json_quoted(r.file@) + ",\"entry_id\":"@ + json_quoted(r.entry_id@) + ",\"path\":"@
        + json_quoted(r.path@) + ",\"status\":"@ + json_quoted(r.status@) + "}"@
}

/// A record: its location line, then `"source" -> "target"`.
pub open spec fn record_text(r: Record) -> Seq<char> {
    "@ "@ + location_json(r) + "\n"@ + json_quoted(r.source@) + " -> "@ + json_quoted(r.target@) + "\n\n"@
}

/// The records, one after the other.
pub open spec fn records_text(rs: Seq<Record>) -> Seq<char>
    decreases rs.len(),
{
    if rs.len() == 0 {
        Seq::empty()
    } else {
        records_text(rs.drop_last()) + record_text(rs.last())
    }
}

/// The records of the file `f`, in their order.
pub open spec fn of_file(rs: Seq<Record>, f: Seq<char>) -> Seq<Record> {
    rs.filter(|r: Record| r.file@ == f)
}

/// The groups of the files `fs`, each headed by its `## file` line.
pub open spec fn groups_text(fs: Seq<Seq<char>>, rs: Seq<Record>) -> Seq<char>
    decreases fs.len(),
{
    if fs.len() == 0 {
        Seq::empty()
    } else {
        groups_text(fs.drop_last(), rs) + "## file "@ + json_quoted(fs.last()) + "\n\n"@ + records_text(
            of_file(rs, fs.last()))
    }
}

/// The header, the editing hint, and the meta line.
pub open spec fn head_text(m: Meta) -> Seq<char> {
    header() + "\n"@ + "# 只修改箭头右侧的中文；保留 @ 行、英文原文、引号与 JSON 转义。\n"@ + "# meta "@ + meta_json(m)
        + "\n\n"@
}

/// Some record belongs to the file `f`.
pub open spec fn holds_file(rs: Seq<Record>, f: Seq<char>) -> bool {
    exists|j: int| 0 <= j < rs.len() && (#[trigger] rs[j]).file@ == f
}

/// Each file once, in ascending order.
pub open spec fn files_in_order(fs: Seq<Seq<char>>, rs: Seq<Record>) -> bool {
    &&& forall|i: int, j: int| 0 <= i < j < fs.len() ==> fs[i] != fs[j]
    &&& forall|k: int, l: int| 0 <= k && l == k + 1 && l < fs.len() ==> !lex_lt(#[trigger] fs[l], #[trigger] fs[k])
    &&& forall|i: int| 0 <= i < fs.len() ==> holds_file(rs, #[trigger] fs[i])
    &&& forall|j: int| 0 <= j < rs.len() ==> fs.contains((#[trigger] rs[j]).file@)
}

/// The text of a CMP file: its records grouped by file, the files in
/// ascending order and each file's records in their own order.
pub open spec fn document_text(d: Document, fs: Seq<Seq<char>>) -> Seq<char> {
    head_text(d.meta) + groups_text(fs, d.records@)
}

fn push_meta_head(out: &mut String, m: &Meta)
    ensures
        final(out)@ == old(out)@ + meta_head(*m),
{
    push_str(out, "{\"version\":");
    push_decimal_u32(out, m.version);
    push_str(out, ",\"task_id\":");
    push_str(out, quote_json(m.task_id.as_str()).as_str());
    push_str(out, ",\"quests_dir\":");
    push_str(out, quote_json(m.quests_dir.as_str()).as_str());
    push_str(out, ",\"mode\":");
    push_str(out, quote_json(m.mode.as_str()).as_str());
    assert(final(out)@ =~= old(out)@ + meta_head(*m));
}

fn push_meta_middle(out: &mut String, m: &Meta)
    ensures
        final(out)@ == old(out)@ + meta_middle(*m),
{
    push_str(out, ",\"source_fingerprint\":");
    push_str(out, quote_json(m.source_fingerprint.as_str()).as_str());
    push_str(out, ",\"provider\":");
    push_str(out, quote_json(m.provider.as_str()).as_str());
    push_str(out, ",\"base_url\":");
    push_str(out, quote_json(m.base_url.as_str()).as_str());
    push_str(out, ",\"model\":");
    push_str(out, quote_json(m.model.as_str()).as_str());
    push_str(out, ",\"style\":");
    push_str(out, quote_json(m.style.as_str()).as_str());
    assert(final(out)@ =~= old(out)@ + meta_middle(*m));
}

fn push_meta_tail(out: &mut String, m: &Meta)
    ensures
        final(out)@ == old(out)@ + meta_tail(*m),
{
    push_str(out, ",\"glossary_enabled\":");
    push_str(out, if m.glossary_enabled { "true" } else { "false" });
    push_str(out, ",\"glossary_fingerprint\":");
    push_str(out, quote_json(m.glossary_fingerprint.as_str()).as_str());
    push_str(out, ",\"total_entries\":");
    push_decimal(out, m.total_entries);
    push_str(out, ",\"cache_hits\":");
    push_decimal(out, m.cache_hits);
    push_str(out, "}");
    assert(final(out)@ =~= old(out)@ + meta_tail(*m));
}

fn push_meta_json(out: &mut String, m: &Meta)
    ensures
        final(out)@ == old(out)@ + meta_json(*m),
{
    push_meta_head(out, m);
    push_meta_middle(out, m);
    push_meta_tail(out, m);
    assert(final(out)@ =~= old(out)@ + meta_json(*m));
}

fn push_record_text(out: &mut String, r: &Record)
    ensures
        final(out)@ == old(out)@ + record_text(*r),
{
    push_str(out, "@ {\"file\":");
    push_str(out, quote_json(r.file.as_str()).as_str());
    push_str(out, ",\"entry_id\":");
    push_str(out, quote_json(r.entry_id.as_str()).as_str());
    push_str(out, ",\"path\":");
    push_str(out, quote_json(r.path.as_str()).as_str());
    push_str(out, ",\"status\":");
    push_str(out, quote_json(r.status.as_str()).as_str());
    push_str(out, "}\n");
    push_str(out, quote_json(r.source.as_str()).as_str());
    push_str(out, " -> ");
    push_str(out, quote_json(r.target.as_str()).as_str());
    push_str(out, "\n\n");
    proof {
        reveal_strlit("@ {\"file\":");
        reveal_strlit("{\"file\":");
        reveal_strlit("}\n");
        reveal_strlit("}");
        reveal_strlit("\n");
        reveal_strlit("@ ");
    }
    assert(final(out)@ =~= old(out)@ + record_text(*r));
}

/// The files of the records, each once, in ascending order.
fn sorted_files(rs: &Vec<Record>) -> (fs: Vec<String>)
    ensures
        files_in_order(fs@.map_values(|s: String| s@), rs@),
{
    let mut fs: Vec<String> = Vec::new();
    let mut i: usize = 0;
    while i < rs.len()
        invariant
            i <= rs.len(),
            ({
                let v = fs@.map_values(|s: String| s@);
                &&& forall|a: int, b: int| 0 <= a < b < v.len() ==> v[a] != v[b]
                &&& forall|k: int, l: int| 0 <= k && l == k + 1 && l < v.len() ==> !lex_lt(#[trigger] v[l], #[trigger] v[k])
                &&& forall|a: int| 0 <= a < v.len() ==> holds_file(rs@, #[trigger] v[a])
                &&& forall|j: int| 0 <= j < i ==> v.contains((#[trigger] rs@[j]).file@)
            }),
        decreases rs.len() - i,
    {
        let f = rs[i].file.as_str();
        let ghost v = fs@.map_values(|s: String| s@);
        let mut p: usize = 0;
        let mut seen = false;
        while p < fs.len() && !seen
            invariant
                p <= fs.len(),
                v == fs@.map_values(|s: String| s@),
                !seen ==> forall|a: int| 0 <= a < p ==> v[a] != f@,
                seen ==> v.contains(f@),
            decreases fs.len() - p, if seen { 0int } else { 1int },
        {
            if str_eq(fs[p].as_str(), f) {
                seen = true;
                assert(v[p as int] == f@);
            } else {
                p += 1;
            }
        }
        if !seen {
            let mut q: usize = 0;
            while q < fs.len() && !str_less(f, fs[q].as_str())
                invariant
                    q <= fs.len(),
                    v == fs@.map_values(|s: String| s@),
                    forall|a: int| 0 <= a < q ==> !lex_lt(f@, #[trigger] v[a]),
                decreases fs.len() - q,
            {
                q += 1;
            }
            let ghost before = v;
            fs.insert(q, crate::text::owned(f));
            proof {
                let n = fs@.map_values(|s: String| s@);
                assert(n =~= before.insert(q as int, f@));
                assert(holds_file(rs@, f@)) by {
                    assert(rs@[i as int].file@ == f@);
                }
                assert forall|k: int, l: int| 0 <= k && l == k + 1 && l < n.len() implies !lex_lt(#[trigger] n[l], #[trigger] n[k]) by {
                    if l < q {
                        assert(n[k] == before[k] && n[l] == before[l]);
                    } else if l == q {
                        assert(n[l] == f@ && n[k] == before[k]);
                    } else if k == q {
                        assert(n[k] == f@ && n[l] == before[q as int]);
                        lemma_lex_asym(f@, before[q as int]);
                    } else {
                        assert(n[k] == before[k - 1] && n[l] == before[l - 1]);
                    }
                }
                assert forall|a: int| 0 <= a < n.len() implies holds_file(rs@, #[trigger] n[a]) by {
                    if a < q {
                        assert(n[a] == before[a]);
                    } else if a > q {
                        assert(n[a] == before[a - 1]);
                    }
                }
                assert forall|j: int| 0 <= j <= i implies n.contains((#[trigger] rs@[j]).file@) by {
                    if j == i {
                        assert(n[q as int] == f@);
                    } else {
                        let w = choose|a: int| 0 <= a < before.len() && before[a] == rs@[j].file@;
                        if w < q {
                            assert(n[w] == before[w]);
                        } else {
                            assert(n[w + 1] == before[w]);
                        }
                    }
                }
            }
        }
        i += 1;
    }
    fs
}

fn push_group(out: &mut String, f: &str, rs: &Vec<Record>)
    ensures
        final(out)@ == old(out)@ + "## file "@ + json_quoted(f@) + "\n\n"@ + records_text(of_file(rs@, f@)),
{
    push_str(out, "## file ");
    push_str(out, quote_json(f).as_str());
    push_str(out, "\n\n");
    let ghost start = out@;
    let ghost pred = |r: Record| r.file@ == f@;
    let mut j: usize = 0;
    assert(rs@.take(0).filter(pred) =~= Seq::<Record>::empty()) by {
        reveal(Seq::filter);
    }
    while j < rs.len()
        invariant
            j <= rs.len(),
            pred == (|r: Record| r.file@ == f@),
            out@ == start + records_text(rs@.take(j as int).filter(pred)),
        decreases rs.len() - j,
    {
        let ghost t = rs@.take(j + 1);
        proof {
            assert(t.drop_last() =~= rs@.take(j as int));
            assert(t.last() == rs@[j as int]);
            reveal(Seq::filter);
        }
        if str_eq(rs[j].file.as_str(), f) {
            push_record_text(out, &rs[j]);
            assert(t.filter(pred) == rs@.take(j as int).filter(pred).push(rs@[j as int]));
            assert(t.filter(pred).drop_last() =~= rs@.take(j as int).filter(pred));
        } else {
            assert(t.filter(pred) == rs@.take(j as int).filter(pred));
        }
        j += 1;
    }
    assert(rs@.take(rs.len() as int) =~= rs@);
}

/// The text of a CMP file, once the document is checked as `validate_document` does.
pub fn render(document: &Document) -> (r: Result<String, AppError>)
    ensures
        match document_problem(*document) {
            Some(m) => r matches Err(e) && refused(e, m),
            None => r matches Ok(text) && exists|fs: Seq<Seq<char>>| files_in_order(fs, document.records@)
                && text@ == document_text(*document, fs),
        },
{
    match validate_document(document) {
        Err(e) => return Err(e),
        Ok(()) => {},
    }
    let mut out = String::new();
    push_str(&mut out, "# FTB Translater CMP v1");
    push_str(&mut out, "\n");
    push_str(&mut out, "# 只修改箭头右侧的中文；保留 @ 行、英文原文、引号与 JSON 转义。\n");
    push_str(&mut out, "# meta ");
    push_meta_json(&mut out, &document.meta);
    push_str(&mut out, "\n\n");
    let files = sorted_files(&document.records);
    let ghost fs = files@.map_values(|s: String| s@);
    let ghost head = out@;
    let mut k: usize = 0;
    while k < files.len()
        invariant
            k <= files.len(),
            fs == files@.map_values(|s: String| s@),
            out@ == head + groups_text(fs.take(k as int), document.records@),
        decreases files.len() - k,
    {
        push_group(&mut out, files[k].as_str(), &document.records);
        proof {
            let t = fs.take(k + 1);
            assert(t.drop_last() =~= fs.take(k as int));
            assert(t.last() == files@[k as int]@);
        }
        k += 1;
    }
    assert(fs.take(files.len() as int) =~= fs);
    assert(out@ =~= document_text(*document, fs));
    Ok(out)
}


// ---------------------------------------------------------------------------
// Reading: a source and a target on one line.

/// What the line `"source" -> "target"` holds, or why it is refused (the
/// message for the user and the one for the logs).
pub open spec fn pair_of(line: Seq<char>) -> Result<(Seq<char>, Seq<char>), (Seq<char>, Seq<char>)> {
    match json_leading_string(line) {
        None => Err(("缺少英文原文"@, "缺少英文原文"@)),
        Some(Err(e)) => Err(("英文原文不是有效 JSON 字符串："@ + e, e)),
        Some(Ok((source, rest))) => if rest.len() >= 4 && rest.take(4) == " -> "@ {
            match json_string_read(rest.skip(4)) {
                Ok(target) => Ok((source, target)),
                Err(e) => Err(("中文译文不是有效 JSON 字符串："@ + e, e)),
            }
        } else {
            Err(("英文和中文之间必须使用空格、->、空格"@, "英文和中文之间必须使用空格、->、空格"@))
        },
    }
}

/// An error of a refused CMP file, by its two messages.
pub open spec fn refused_with(e: AppError, m: (Seq<char>, Seq<char>)) -> bool {
    made(e, ErrorCode::CmpInvalid, m.0, m.1, false, false)
}

/// Reads the source and the target of an entry from their line.
pub fn parse_pair(line: &str) -> (r: Result<(String, String), AppError>)
    ensures
        match pair_of(line@) {
            Ok((a, b)) => r matches Ok((x, y)) && x@ == a && y@ == b,
            Err(m) => r matches Err(e) && refused_with(e, m),
        },
{
    match read_leading_json_string(line) {
        None => Err(invalid("缺少英文原文")),
        Some(Err(e)) => {
            let mut m = String::new();
            push_str(&mut m, "英文原文不是有效 JSON 字符串：");
            push_str(&mut m, e.as_str());
            Err(invalid_with(m.as_str(), e.as_str()))
        },
        Some(Ok((source, rest))) => {
            proof {
                reveal_strlit(" -> ");
            }
            if str_starts_with(rest.as_str(), " -> ") {
                let v = chars_of(rest.as_str());
                let tail = string_of_range(&v, 4, v.len());
                proof {
                    reveal_strlit(" -> ");
                    assert(tail@ =~= rest@.skip(4));
                }
                match read_json_string(tail.as_str()) {
                    Ok(target) => Ok((source, target)),
                    Err(e) => {
                        let mut m = String::new();
                        push_str(&mut m, "中文译文不是有效 JSON 字符串：");
                        push_str(&mut m, e.as_str());
                        Err(invalid_with(m.as_str(), e.as_str()))
                    },
                }
            } else {
                proof {
                    reveal_strlit(" -> ");
                }
                Err(invalid("英文和中文之间必须使用空格、->、空格"))
            }
        },
    }
}

// ---------------------------------------------------------------------------
// Reading: the lines of a file.

/// Where the line that starts at `k` ends: at the next line feed or at the end.
pub open spec fn line_end(s: Seq<char>, k: int) -> int
    decreases s.len() - k,
{
    if k < 0 || k >= s.len() || s[k] == '\n' {
        k
    } else {
        line_end(s, k + 1)
    }
}

/// The lines from position `k` on, without their `\n` or `\r\n` endings (`str::lines`).
pub open spec fn lines_from(s: Seq<char>, k: int) -> Seq<Seq<char>>
    decreases s.len() - k,
{
    if 0 <= k < s.len() {
        let e = line_end(s, k);
        let raw = s.subrange(k, e);
        let line = if e < s.len() && raw.len() > 0 && raw.last() == '\r' { raw.drop_last() } else { raw };
        if k <= e < s.len() {
            seq![line] + lines_from(s, e + 1)
        } else {
            seq![line]
        }
    } else {
        seq![]
    }
}

pub open spec fn lines_of(s: Seq<char>) -> Seq<Seq<char>> {
    lines_from(s, 0)
}

/// One significant line of a CMP file, with its line number.
pub enum Frame {
    /// `# meta` and the JSON after it.
    Meta { line: usize, raw: String },
    /// `## file` and the JSON string after it.
    File { line: usize, raw: String },
    /// `@` and the JSON location after it, with the next significant line
    /// and its number, if there is one.
    Location { line: usize, raw: String, pair: Option<(usize, String)> },
    /// A line that is none of these.
    Stray { line: usize },
}

/// A frame, by value.
pub enum FrameView {
    Meta(nat, Seq<char>),
    File(nat, Seq<char>),
    Location(nat, Seq<char>, Option<(nat, Seq<char>)>),
    Stray(nat),
}

impl View for Frame {
    type V = FrameView;

    open spec fn view(&self) -> FrameView {
        match self {
            Frame::Meta { line, raw } => FrameView::Meta(*line as nat, raw@),
            Frame::File { line, raw } => FrameView::File(*line as nat, raw@),
            Frame::Location { line, raw, pair } => FrameView::Location(*line as nat, raw@, match pair {
                Some((n, t)) => Some((*n as nat, t@)),
                None => None,
            }),
            Frame::Stray { line } => FrameView::Stray(*line as nat),
        }
    }
}

pub open spec fn frames_view(v: Seq<Frame>) -> Seq<FrameView> {
    v.map_values(|f: Frame| f@)
}

/// A line that holds an entry's text: not blank and not a comment.
pub open spec fn significant(l: Seq<char>) -> bool {
    let t = trim(l);
    t.len() > 0 && t[0] != '#'
}

/// The first significant line at or after `k`.
pub open spec fn next_significant(ls: Seq<Seq<char>>, k: int) -> Option<int>
    decreases ls.len() - k,
{
    if 0 <= k < ls.len() {
        if significant(ls[k]) { Some(k) } else { next_significant(ls, k + 1) }
    } else {
        None
    }
}


/// The frames of the lines from index `i` on; line numbers count from 1.
pub open spec fn frames_from(ls: Seq<Seq<char>>, i: int) -> Seq<FrameView>
    decreases ls.len() - i,
{
    if 0 <= i < ls.len() {
        let t = trim(ls[i]);
        let n = (i + 1) as nat;
        if t.len() == 0 {
            frames_from(ls, i + 1)
        } else if starts(t, "# meta "@) {
            seq![FrameView::Meta(n, t.skip(7))] + frames_from(ls, i + 1)
        } else if starts(t, "## file "@) {
            seq![FrameView::File(n, t.skip(8))] + frames_from(ls, i + 1)
        } else if t[0] == '#' {
            frames_from(ls, i + 1)
        } else if starts(t, "@ "@) {
            match next_significant(ls, i + 1) {
                Some(j) => if i < j < ls.len() {
                    seq![FrameView::Location(n, t.skip(2), Some(((j + 1) as nat, trim(ls[j]))))] + frames_from(ls, j + 1)
                } else {
                    seq![]
                },
                None => seq![FrameView::Location(n, t.skip(2), None)],
            }
        } else {
            seq![FrameView::Stray(n)]
        }
    } else {
        seq![]
    }
}

/// The frames of a CMP file, or why its header is refused.
pub open spec fn framing(content: Seq<char>) -> Result<Seq<FrameView>, Seq<char>> {
    let ls = lines_of(content);
    if ls.len() == 0 {
        Err("CMP 文件为空"@)
    } else if without_bom(ls[0]) != header() {
        Err("CMP 文件头无效或版本不受支持"@)
    } else {
        Ok(frames_from(ls, 1))
    }
}



proof fn lemma_line_end(s: Seq<char>, k: int)
    requires
        0 <= k <= s.len(),
    ensures
        k <= line_end(s, k) <= s.len(),
        line_end(s, k) < s.len() ==> s[line_end(s, k)] == '\n',
    decreases s.len() - k,
{
    if k < s.len() && s[k] != '\n' {
        lemma_line_end(s, k + 1);
    }
}

/// The lines of `content` (`str::lines`).
pub fn split_lines(content: &str) -> (out: Vec<String>)
    ensures
        strings_view(out@) == lines_of(content@),
{
    let v = chars_of(content);
    let ghost s = v@;
    let n = v.len();
    let mut out: Vec<String> = Vec::new();
    let mut k: usize = 0;
    while k < n
        invariant
            k <= n == v.len(),
            s == v@,
            s == content@,
            strings_view(out@) + lines_from(s, k as int) == lines_of(s),
        decreases n - k,
    {
        let mut e = k;
        while e < n && v[e] != '\n'
            invariant
                k <= e <= n == v.len(),
                s == v@,
                line_end(s, k as int) == line_end(s, e as int),
            decreases n - e,
        {
            e += 1;
        }
        proof {
            lemma_line_end(s, k as int);
        }
        let stop = if e < n && e > k && v[e - 1] == '\r' { e - 1 } else { e };
        let line = string_of_range(&v, k, stop);
        let ghost before = strings_view(out@);
        out.push(line);
        proof {
            let raw = s.subrange(k as int, e as int);
            if e < n && e > k && v[e - 1] == '\r' {
                assert(line@ =~= raw.drop_last());
            } else {
                assert(line@ =~= raw);
            }
            assert(strings_view(out@) =~= before.push(line@));
        }
        if e == n {
            proof {
                assert(lines_from(s, k as int) == seq![line@]);
                assert(strings_view(out@) =~= before + lines_from(s, k as int));
            }
            return out;
        }
        proof {
            assert(lines_from(s, k as int) == seq![line@] + lines_from(s, e + 1));
            assert(strings_view(out@) + lines_from(s, e + 1) =~= before + lines_from(s, k as int));
        }
        k = e + 1;
    }
    assert(lines_from(s, k as int) =~= Seq::<Seq<char>>::empty());
    assert(strings_view(out@) =~= lines_of(s));
    out
}

fn without_bom_exec(s: &str) -> (r: String)
    ensures
        r@ == without_bom(s@),
{
    let v = chars_of(s);
    let mut i: usize = 0;
    assert(v@.skip(0) =~= v@);
    while i < v.len() && v[i] == '\u{feff}'
        invariant
            i <= v.len(),
            v@ == s@,
            without_bom(s@) == without_bom(v@.skip(i as int)),
        decreases v.len() - i,
    {
        assert(v@.skip(i as int).drop_first() =~= v@.skip(i + 1));
        i += 1;
    }
    let r = string_of_range(&v, i, v.len());
    assert(r@ =~= v@.skip(i as int));
    r
}

fn is_significant(l: &str) -> (b: bool)
    ensures
        b == significant(l@),
{
    let t = trimmed(l);
    let v = chars_of(t.as_str());
    v.len() > 0 && v[0] != '#'
}

fn skip_chars(s: &str, n: usize) -> (r: String)
    requires
        n <= s@.len(),
    ensures
        r@ == s@.skip(n as int),
{
    let v = chars_of(s);
    let r = string_of_range(&v, n, v.len());
    assert(r@ =~= s@.skip(n as int));
    r
}

/// Splits a CMP file into its significant lines, after checking its header.
pub fn frame(content: &str) -> (r: Result<Vec<Frame>, AppError>)
    ensures
        match framing(content@) {
            Ok(fs) => r matches Ok(v) && frames_view(v@) == fs,
            Err(m) => r matches Err(e) && refused(e, m),
        },
{
    let lines = split_lines(content);
    let ghost ls = strings_view(lines@);
    if lines.len() == 0 {
        return Err(invalid("CMP 文件为空"));
    }
    let head = without_bom_exec(lines[0].as_str());
    if !str_eq(head.as_str(), "# FTB Translater CMP v1") {
        return Err(invalid("CMP 文件头无效或版本不受支持"));
    }
    proof {
        reveal_strlit("# meta ");
        reveal_strlit("## file ");
        reveal_strlit("@ ");
    }
    assert(ls[0] == lines@[0]@);
    let mut out: Vec<Frame> = Vec::new();
    let mut i: usize = 1;
    assert(frames_view(out@) =~= Seq::<FrameView>::empty());
    while i < lines.len()
        invariant
            1 <= i,
            ls == strings_view(lines@),
            ls == lines_of(content@),
            lines.len() == ls.len(),
            framing(content@) == Ok::<Seq<FrameView>, Seq<char>>(frames_from(ls, 1)),
            frames_view(out@) + frames_from(ls, i as int) == frames_from(ls, 1),
        decreases lines.len() - i,
    {
        proof {
            reveal_strlit("# meta ");
            reveal_strlit("## file ");
            reveal_strlit("@ ");
        }
        assert(ls[i as int] == lines@[i as int]@);
        let t = trimmed(lines[i].as_str());
        let tv = chars_of(t.as_str());
        let ghost before = frames_view(out@);
        if tv.len() == 0 {
            i += 1;
        } else if str_starts_with(t.as_str(), "# meta ") {
            out.push(Frame::Meta { line: i + 1, raw: skip_chars(t.as_str(), 7) });
            assert(frames_view(out@) =~= before.push(FrameView::Meta((i + 1) as nat, t@.skip(7))));
            i += 1;
        } else if str_starts_with(t.as_str(), "## file ") {
            out.push(Frame::File { line: i + 1, raw: skip_chars(t.as_str(), 8) });
            assert(frames_view(out@) =~= before.push(FrameView::File((i + 1) as nat, t@.skip(8))));
            i += 1;
        } else if tv[0] == '#' {
            i += 1;
        } else if str_starts_with(t.as_str(), "@ ") {
            let raw = skip_chars(t.as_str(), 2);
            let mut j = i + 1;
            while j < lines.len() && !is_significant(lines[j].as_str())
                invariant
                    i < j <= lines.len() == ls.len(),
                    ls == strings_view(lines@),
                    next_significant(ls, i + 1) == next_significant(ls, j as int),
                decreases lines.len() - j,
            {
                assert(ls[j as int] == lines@[j as int]@);
                j += 1;
            }
            if j == lines.len() {
                out.push(Frame::Location { line: i + 1, raw, pair: None });
                proof {
                    assert(frames_view(out@) =~= before.push(FrameView::Location((i + 1) as nat, t@.skip(2), None)));
                    assert(frames_from(ls, i as int) == seq![FrameView::Location((i + 1) as nat, t@.skip(2), None)]);
                    assert(frames_view(out@) =~= frames_from(ls, 1));
                }
                return Ok(out);
            }
            assert(ls[j as int] == lines@[j as int]@);
            let pair = trimmed(lines[j].as_str());
            out.push(Frame::Location { line: i + 1, raw, pair: Some((j + 1, pair)) });
            proof {
                assert(frames_view(out@) =~= before.push(FrameView::Location((i + 1) as nat, t@.skip(2), Some(((j + 1) as nat, trim(ls[j as int]))))));
            }
            i = j + 1;
        } else {
            out.push(Frame::Stray { line: i + 1 });
            proof {
                assert(frames_view(out@) =~= before.push(FrameView::Stray((i + 1) as nat)));
                assert(frames_view(out@) =~= frames_from(ls, 1));
            }
            return Ok(out);
        }
    }
    assert(frames_view(out@) =~= frames_from(ls, 1));
    Ok(out)
}


// ---------------------------------------------------------------------------
// Reading: putting the frames together.

/// What the JSON of a frame decodes to: the meta or the location (or the text
/// of the error), for the frames that hold such JSON.
pub enum Decoded {
    Meta(Result<Meta, String>),
    Location(Result<Location, String>),
    Nothing,
}

/// Each frame comes with the decoding of its own kind.
pub open spec fn decoded_fits(fs: Seq<FrameView>, ds: Seq<Decoded>) -> bool {
    &&& fs.len() == ds.len()
    &&& forall|k: int| 0 <= k < fs.len() ==> match (#[trigger] fs[k], ds[k]) {
        (FrameView::Meta(_, _), Decoded::Meta(_)) => true,
        (FrameView::Location(_, _, _), Decoded::Location(_)) => true,
        (FrameView::File(_, _), Decoded::Nothing) => true,
        (FrameView::Stray(_), Decoded::Nothing) => true,
        _ => false,
    }
}

/// A record, by value.
pub struct RecordView {
    pub file: Seq<char>,
    pub entry_id: Seq<char>,
    pub path: Seq<char>,
    pub source: Seq<char>,
    pub target: Seq<char>,
    pub status: Seq<char>,
}

pub open spec fn record_view(r: Record) -> RecordView {
    RecordView {
        file: r.file@,
        entry_id: r.entry_id@,
        path: r.path@,
        source: r.source@,
        target: r.target@,
        status: r.status@,
    }
}

pub open spec fn records_view(rs: Seq<Record>) -> Seq<RecordView> {
    rs.map_values(|r: Record| record_view(r))
}

/// A message about line `n`.
pub open spec fn at_line(n: nat, what: Seq<char>) -> Seq<char> {
    "CMP 第 "@ + decimal(n) + what
}

pub open spec fn same(m: Seq<char>) -> (Seq<char>, Seq<char>) {
    (m, m)
}

/// A record of `rs` already fills the place of `loc`.
pub open spec fn place_taken(rs: Seq<RecordView>, loc: Location) -> bool {
    exists|j: int| 0 <= j < rs.len() && (#[trigger] rs[j]).entry_id == loc.entry_id@ && rs[j].path == loc.path@
}

/// Reads the frames from `k` on, given the meta, the records and the file
/// group read so far.
pub open spec fn walk(
    fs: Seq<FrameView>,
    ds: Seq<Decoded>,
    k: int,
    meta: Option<Meta>,
    rs: Seq<RecordView>,
    file: Option<Seq<char>>,
) -> Result<(Option<Meta>, Seq<RecordView>), (Seq<char>, Seq<char>)>
    decreases fs.len() - k,
{
    if k < 0 || k >= fs.len() {
        Ok((meta, rs))
    } else {
        match fs[k] {
            FrameView::Meta(n, _) => if meta is Some {
                Err(same(at_line(n, " 行重复定义 meta"@)))
            } else {
                match ds[k] {
                    Decoded::Meta(Ok(m)) => if m.version != 1 {
                        Err(same("不支持 CMP 版本 "@ + decimal_u32(m.version)))
                    } else {
                        walk(fs, ds, k + 1, Some(m), rs, file)
                    },
                    Decoded::Meta(Err(e)) => Err((at_line(n, " 行 meta 无效："@ + e@), e@)),
                    _ => Err(same(Seq::empty())),
                }
            },
            FrameView::File(n, raw) => match json_string_read(raw) {
                Ok(f) => walk(fs, ds, k + 1, meta, rs, Some(f)),
                Err(e) => Err((at_line(n, " 行文件分组无效："@ + e), e)),
            },
            FrameView::Location(n, _, pair) => match ds[k] {
                Decoded::Location(Err(e)) => Err((at_line(n, " 行回填位置无效："@ + e@), e@)),
                Decoded::Location(Ok(loc)) => if file is Some && file->0 != loc.file@ {
                    Err(same(at_line(n, " 行的文件归属与当前 ## file 分组不一致"@)))
                } else if !status_ok(loc.status@) {
                    Err(same(at_line(n, " 行包含不支持的状态："@ + loc.status@)))
                } else if place_taken(rs, loc) {
                    Err(same(at_line(n, " 行重复定义同一回填位置"@)))
                } else {
                    match pair {
                        None => Err(same(at_line(n, " 行缺少英文 -> 中文"@))),
                        Some((pn, text)) => match pair_of(text) {
                            Err((u, i)) => Err((at_line(pn, " 行无效："@ + u), i)),
                            Ok((source, target)) => walk(fs, ds, k + 1, meta, rs.push(RecordView {
                                file: loc.file@,
                                entry_id: loc.entry_id@,
                                path: loc.path@,
                                source,
                                target,
                                status: loc.status@,
                            }), file),
                        },
                    }
                },
                _ => Err(same(Seq::empty())),
            },
            FrameView::Stray(n) => Err(same(at_line(n, " 行缺少 @ 回填位置"@))),
        }
    }
}

/// The document that the frames make, or why it is refused.
pub open spec fn assembled(fs: Seq<FrameView>, ds: Seq<Decoded>) -> Result<(Meta, Seq<RecordView>), (Seq<char>, Seq<char>)> {
    match walk(fs, ds, 0, None, Seq::empty(), None) {
        Err(m) => Err(m),
        Ok((None, _)) => Err(same("CMP 文件缺少 meta"@)),
        Ok((Some(m), rs)) => if rs.len() == 0 {
            Err(same("CMP 文件没有翻译条目"@))
        } else {
            Ok((m, rs))
        },
    }
}

pub open spec fn opt_view(f: Option<String>) -> Option<Seq<char>> {
    match f {
        Some(s) => Some(s@),
        None => None,
    }
}

fn copy_meta(m: &Meta) -> (r: Meta)
    ensures
        r == *m,
{
    Meta {
        version: m.version,
        task_id: m.task_id.clone(),
        quests_dir: m.quests_dir.clone(),
        mode: m.mode.clone(),
        source_fingerprint: m.source_fingerprint.clone(),
        provider: m.provider.clone(),
        base_url: m.base_url.clone(),
        model: m.model.clone(),
        style: m.style.clone(),
        glossary_enabled: m.glossary_enabled,
        glossary_fingerprint: m.glossary_fingerprint.clone(),
        total_entries: m.total_entries,
        cache_hits: m.cache_hits,
    }
}

fn line_message(n: usize, what: &str) -> (r: String)
    ensures
        r@ == at_line(n as nat, what@),
{
    let mut m = String::new();
    push_str(&mut m, "CMP 第 ");
    push_decimal(&mut m, n);
    push_str(&mut m, what);
    m
}

fn line_message_with(n: usize, what: &str, extra: &str) -> (r: String)
    ensures
        r@ == at_line(n as nat, what@ + extra@),
{
    let mut m = line_message(n, what);
    push_str(&mut m, extra);
    assert(m@ =~= at_line(n as nat, what@ + extra@));
    m
}

fn line_error(n: usize, what: &str) -> (e: AppError)
    ensures
        refused_with(e, same(at_line(n as nat, what@))),
{
    let m = line_message(n, what);
    invalid(m.as_str())
}

fn place_taken_exec(rs: &Vec<Record>, loc: &Location) -> (b: bool)
    ensures
        b == place_taken(records_view(rs@), *loc),
{
    let ghost v = records_view(rs@);
    let mut j: usize = 0;
    while j < rs.len()
        invariant
            j <= rs.len(),
            v == records_view(rs@),
            forall|a: int| 0 <= a < j ==> !((#[trigger] v[a]).entry_id == loc.entry_id@ && v[a].path == loc.path@),
        decreases rs.len() - j,
    {
        assert(v[j as int] == record_view(rs@[j as int]));
        if str_eq(rs[j].entry_id.as_str(), loc.entry_id.as_str()) && str_eq(rs[j].path.as_str(), loc.path.as_str()) {
            return true;
        }
        j += 1;
    }
    false
}

/// Puts a CMP file together from its frames and the decoding of their JSON,
/// checking it as it goes: one meta of version 1, file groups that agree
/// with their entries, supported statuses, no place filled twice, and a
/// readable pair for every entry.
pub fn assemble(frames: &Vec<Frame>, decoded: &Vec<Decoded>) -> (r: Result<Document, AppError>)
    requires
        decoded_fits(frames_view(frames@), decoded@),
    ensures
        match assembled(frames_view(frames@), decoded@) {
            Ok((m, rs)) => r matches Ok(d) && d.meta == m && records_view(d.records@) == rs,
            Err(m) => r matches Err(e) && refused_with(e, m),
        },
{
    let ghost fs = frames_view(frames@);
    let ghost ds = decoded@;
    let mut meta: Option<Meta> = None;
    let mut records: Vec<Record> = Vec::new();
    let mut file: Option<String> = None;
    let mut k: usize = 0;
    assert(records_view(records@) =~= Seq::<RecordView>::empty());
    while k < frames.len()
        invariant
            k <= frames.len(),
            fs == frames_view(frames@),
            ds == decoded@,
            decoded_fits(fs, ds),
            walk(fs, ds, 0, None, Seq::empty(), None) == walk(fs, ds, k as int, meta, records_view(records@), opt_view(file)),
        decreases frames.len() - k,
    {
        assert(fs[k as int] == frames@[k as int]@);
        match &frames[k] {
            Frame::Meta { line, raw: _ } => {
                if meta.is_some() {
                    return Err(line_error(*line, " 行重复定义 meta"));
                }
                match &decoded[k] {
                    Decoded::Meta(Ok(m)) => {
                        if m.version != 1 {
                            let mut t = String::new();
                            push_str(&mut t, "不支持 CMP 版本 ");
                            push_decimal_u32(&mut t, m.version);
                            return Err(invalid(t.as_str()));
                        }
                        meta = Some(copy_meta(m));
                    },
                    Decoded::Meta(Err(e)) => {
                        let t = line_message_with(*line, " 行 meta 无效：", e.as_str());
                        return Err(invalid_with(t.as_str(), e.as_str()));
                    },
                    _ => {
                        return Err(invalid(""));
                    },
                }
            },
            Frame::File { line, raw } => {
                match read_json_string(raw.as_str()) {
                    Ok(f) => {
                        file = Some(f);
                    },
                    Err(e) => {
                        let t = line_message_with(*line, " 行文件分组无效：", e.as_str());
                        return Err(invalid_with(t.as_str(), e.as_str()));
                    },
                }
            },
            Frame::Location { line, raw: _, pair } => {
                match &decoded[k] {
                    Decoded::Location(Err(e)) => {
                        let t = line_message_with(*line, " 行回填位置无效：", e.as_str());
                        return Err(invalid_with(t.as_str(), e.as_str()));
                    },
                    Decoded::Location(Ok(loc)) => {
                        let mismatch = match &file {
                            Some(f) => !str_eq(f.as_str(), loc.file.as_str()),
                            None => false,
                        };
                        if mismatch {
                            return Err(line_error(*line, " 行的文件归属与当前 ## file 分组不一致"));
                        }
                        if !supported_status(loc.status.as_str()) {
                            let t = line_message_with(*line, " 行包含不支持的状态：", loc.status.as_str());
                            return Err(invalid(t.as_str()));
                        }
                        if place_taken_exec(&records, loc) {
                            return Err(line_error(*line, " 行重复定义同一回填位置"));
                        }
                        match pair {
                            None => {
                                return Err(line_error(*line, " 行缺少英文 -> 中文"));
                            },
                            Some((pn, text)) => match parse_pair(text.as_str()) {
                                Err(e) => {
                                    let t = line_message_with(*pn, " 行无效：", e.user_message.as_str());
                                    return Err(invalid_with(t.as_str(), e.internal_message.as_str()));
                                },
                                Ok((source, target)) => {
                                    let ghost before = records_view(records@);
                                    records.push(Record {
                                        file: loc.file.clone(),
                                        entry_id: loc.entry_id.clone(),
                                        path: loc.path.clone(),
                                        source,
                                        target,
                                        status: loc.status.clone(),
                                    });
                                    assert(records_view(records@) =~= before.push(record_view(records@.last())));
                                },
                            },
                        }
                    },
                    _ => {
                        return Err(invalid(""));
                    },
                }
            },
            Frame::Stray { line } => {
                return Err(line_error(*line, " 行缺少 @ 回填位置"));
            },
        }
        k += 1;
    }
    match meta {
        None => Err(invalid("CMP 文件缺少 meta")),
        Some(m) => {
            if records.len() == 0 {
                Err(invalid("CMP 文件没有翻译条目"))
            } else {
                Ok(Document { meta: m, records })
            }
        },
    }
}


// ---------------------------------------------------------------------------
// What every document read from a CMP file is.

/// A document as the format allows it: version 1, supported statuses, and no
/// place (entry and path) filled twice.
pub open spec fn well_formed_records(rs: Seq<RecordView>) -> bool {
    &&& forall|i: int| 0 <= i < rs.len() ==> status_ok(#[trigger] rs[i].status)
    &&& forall|i: int, j: int| 0 <= i < j < rs.len() ==> !((#[trigger] rs[i]).entry_id == (#[trigger] rs[j]).entry_id
        && rs[i].path == rs[j].path)
}

proof fn lemma_walk_well_formed(
    fs: Seq<FrameView>,
    ds: Seq<Decoded>,
    k: int,
    meta: Option<Meta>,
    rs: Seq<RecordView>,
    file: Option<Seq<char>>,
)
    requires
        meta matches Some(m) ==> m.version == 1,
        well_formed_records(rs),
    ensures
        walk(fs, ds, k, meta, rs, file) matches Ok((m2, rs2)) ==> (m2 matches Some(m) ==> m.version == 1)
            && well_formed_records(rs2),
    decreases fs.len() - k,
{
    if 0 <= k < fs.len() {
        match fs[k] {
            FrameView::Meta(n, _) => {
                if meta is None {
                    match ds[k] {
                        Decoded::Meta(Ok(m)) => {
                            if m.version == 1 {
                                lemma_walk_well_formed(fs, ds, k + 1, Some(m), rs, file);
                            }
                        },
                        _ => {},
                    }
                }
            },
            FrameView::File(n, raw) => match json_string_read(raw) {
                Ok(f) => lemma_walk_well_formed(fs, ds, k + 1, meta, rs, Some(f)),
                Err(_) => {},
            },
            FrameView::Location(n, _, pair) => match ds[k] {
                Decoded::Location(Ok(loc)) => {
                    if !(file is Some && file->0 != loc.file@) && status_ok(loc.status@) && !place_taken(rs, loc) {
                        match pair {
                            None => {},
                            Some((pn, text)) => match pair_of(text) {
                                Err(_) => {},
                                Ok((source, target)) => {
                                    let r = RecordView {
                                        file: loc.file@,
                                        entry_id: loc.entry_id@,
                                        path: loc.path@,
                                        source,
                                        target,
                                        status: loc.status@,
                                    };
                                    let rs2 = rs.push(r);
                                    assert forall|i: int, j: int| 0 <= i < j < rs2.len() implies !((#[trigger] rs2[i]).entry_id
                                        == (#[trigger] rs2[j]).entry_id && rs2[i].path == rs2[j].path) by {
                                        if j == rs.len() {
                                            assert(rs2[i] == rs[i]);
                                            if rs[i].entry_id == loc.entry_id@ && rs[i].path == loc.path@ {
                                                assert(place_taken(rs, loc));
                                            }
                                        } else {
                                            assert(rs2[i] == rs[i] && rs2[j] == rs[j]);
                                        }
                                    }
                                    assert forall|i: int| 0 <= i < rs2.len() implies status_ok(#[trigger] rs2[i].status) by {
                                        if i < rs.len() {
                                            assert(rs2[i] == rs[i]);
                                        }
                                    }
                                    lemma_walk_well_formed(fs, ds, k + 1, meta, rs2, file);
                                },
                            },
                        }
                    }
                },
                _ => {},
            },
            FrameView::Stray(_) => {},
        }
    }
}

/// A document read from a CMP file has version 1 and at least one record;
/// every record has a supported status, and no place is filled twice.
pub proof fn law_read_document_is_well_formed(fs: Seq<FrameView>, ds: Seq<Decoded>)
    ensures
        assembled(fs, ds) matches Ok((m, rs)) ==> m.version == 1 && rs.len() > 0 && well_formed_records(rs),
{
    lemma_walk_well_formed(fs, ds, 0, None, Seq::empty(), None);
}

} // verus!



