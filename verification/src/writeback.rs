//! What writing a reviewed CMP file back into the task book decides: which
//! unit each record fills, which records cannot be written, which entries
//! still hold the English text, and the new values of the language file.

use crate::cmp::{invalid, invalid_with, refused_with, Record};
use crate::entries::{guard, lookup, lookup_exec, render_entry, rendered_entry, source_file, entry_source_file, unit_at, warnings, Entry, EntryKind, Item};
use crate::rich_text::Document;
use crate::cmp::Document as CmpFile;
use crate::entries::{entries_bytes, source_fingerprint};
use crate::digest::{hex_lower, sha256_of};
use crate::chapters::Segment;
use crate::error::{made, AppError, ErrorCode};
use crate::glossary::{blank, is_blank};
use crate::snbt::{map_view, LangMap, LangVal, LangValue};
use crate::text::{chars_of, decimal, push_char, push_decimal, push_str, str_eq, pairs_view, strings_view};
use vstd::prelude::*;

verus! {

/// Messages joined by `；`.
pub open spec fn joined_messages(ms: Seq<Seq<char>>) -> Seq<char>
    decreases ms.len(),
{
    if ms.len() == 0 {
        Seq::empty()
    } else if ms.len() == 1 {
        ms[0]
    } else {
        joined_messages(ms.drop_last()) + "；"@ + ms.last()
    }
}

/// What cannot be written of one record, with the code of the refusal;
/// `problems` is what the format guard found in its target.
pub open spec fn write_problem(mode: Seq<char>, r: Record, items: Seq<Item>, problems: Seq<Seq<char>>) -> Option<(ErrorCode, Seq<char>)> {
    match unit_at(items, r.entry_id@, r.path@) {
        None => Some((ErrorCode::CmpInvalid, "CMP 包含未知回填位置："@ + r.entry_id@ + " "@ + r.path@)),
        Some(k) => if r.file@ != source_file(mode, r.entry_id@) {
            Some((ErrorCode::CmpInvalid, "CMP 文件归属被修改："@ + r.entry_id@ + " 应属于 "@ + source_file(mode, r.entry_id@)))
        } else if r.source@ != items[k].source@ {
            Some((ErrorCode::CmpInvalid, "CMP 英文原文被修改："@ + r.entry_id@ + " "@ + r.path@ + "。只允许修改箭头右侧中文"@))
        } else if blank(r.target@) {
            Some((ErrorCode::CmpInvalid, "CMP 译文不能为空："@ + r.entry_id@ + " "@ + r.path@))
        } else if problems.len() > 0 {
            Some((ErrorCode::FormatGuardRejected, "CMP 译文未通过格式守卫："@ + r.entry_id@ + " "@ + r.path@ + "（"@
                + joined_messages(problems) + "）"@))
        } else {
            None
        },
    }
}

/// The first record, from `i` on, that cannot be written.
pub open spec fn first_write_problem(mode: Seq<char>, rs: Seq<Record>, items: Seq<Item>, guard: Seq<Seq<Seq<char>>>, i: int) -> Option<(ErrorCode, Seq<char>)>
    decreases rs.len() - i,
{
    if 0 <= i < rs.len() {
        match write_problem(mode, rs[i], items, guard[i]) {
            Some(p) => Some(p),
            None => first_write_problem(mode, rs, items, guard, i + 1),
        }
    } else {
        None
    }
}

/// The id of the unit a record fills.
pub open spec fn filled_id(items: Seq<Item>, r: Record) -> Seq<char> {
    match unit_at(items, r.entry_id@, r.path@) {
        Some(k) => items[k].id@,
        None => Seq::empty(),
    }
}

/// The id of the unit each record fills.
pub open spec fn filled(rs: Seq<Record>, items: Seq<Item>) -> Seq<Seq<char>> {
    rs.map_values(|r: Record| filled_id(items, r))
}

/// How many ids of `s` are not repeats of an earlier one.
pub open spec fn fresh_count(s: Seq<Seq<char>>) -> nat
    decreases s.len(),
{
    if s.len() == 0 {
        0
    } else {
        fresh_count(s.drop_last()) + if s.drop_last().contains(s.last()) { 0nat } else { 1nat }
    }
}

/// The entries whose records kept the English text without being translated.
pub open spec fn kept_english(r: Record) -> bool {
    r.status@ != "translated"@ && r.target@ == r.source@
}

/// The records of a reviewed file, once checked.
#[derive(Debug)]
pub struct Reviewed {
    /// Each unit's id with the target its record gives, in record order.
    pub unit_targets: Vec<(String, String)>,
    /// The entries that still hold the English text.
    pub pending_reviews: Vec<String>,
}

/// The index of the last unit at the place of `r`.
pub(crate) fn find_unit(items: &Vec<Item>, entry_id: &str, path: &str) -> (found: Option<usize>)
    ensures
        match unit_at(items@, entry_id@, path@) {
            Some(k) => found matches Some(x) && x == k && k < items@.len(),
            None => found is None,
        },
{
    let mut k = items.len();
    assert(items@.take(k as int) =~= items@);
    while k > 0
        invariant
            k <= items.len(),
            unit_at(items@, entry_id@, path@) == unit_at(items@.take(k as int), entry_id@, path@),
        decreases k,
    {
        let ghost t = items@.take(k as int);
        assert(t.drop_last() =~= items@.take(k - 1));
        assert(t.last() == items@[k - 1]);
        if str_eq(items[k - 1].entry_id.as_str(), entry_id) && str_eq(items[k - 1].path.as_str(), path) {
            return Some(k - 1);
        }
        k -= 1;
    }
    None
}

fn joined_messages_exec(ms: &Vec<String>) -> (s: String)
    ensures
        s@ == joined_messages(strings_view(ms@)),
{
    let ghost mv = strings_view(ms@);
    let mut s = String::new();
    let mut i: usize = 0;
    while i < ms.len()
        invariant
            i <= ms.len(),
            mv == strings_view(ms@),
            s@ == joined_messages(mv.take(i as int)),
        decreases ms.len() - i,
    {
        let ghost t = mv.take(i + 1);
        assert(t.drop_last() =~= mv.take(i as int));
        assert(t.last() == ms@[i as int]@);
        if i > 0 {
            push_str(&mut s, "；");
        } else {
            assert(mv.take(0) =~= Seq::<Seq<char>>::empty());
            assert(s@ =~= Seq::<char>::empty());
        }
        push_str(&mut s, ms[i].as_str());
        proof {
            if i == 0 {
                assert(t.len() == 1);
                assert(s@ =~= t[0]);
            }
        }
        i += 1;
    }
    assert(mv.take(ms.len() as int) =~= mv);
    s
}

/// The unit a record fills, or why the record cannot be written.
fn write_check(mode: &str, r: &Record, items: &Vec<Item>, problems: &Vec<String>) -> (e: Result<usize, AppError>)
    ensures
        match write_problem(mode@, *r, items@, strings_view(problems@)) {
            Some((code, m)) => e matches Err(x) && made(x, code, m, m, false, false),
            None => e matches Ok(k) && unit_at(items@, r.entry_id@, r.path@) == Some(k as int) && k < items@.len(),
        },
{
    match find_unit(items, r.entry_id.as_str(), r.path.as_str()) {
        None => {
            let mut m = String::new();
            push_str(&mut m, "CMP 包含未知回填位置：");
            push_str(&mut m, r.entry_id.as_str());
            push_str(&mut m, " ");
            push_str(&mut m, r.path.as_str());
            Err(invalid(m.as_str()))
        },
        Some(k) => {
            let file = entry_source_file(mode, r.entry_id.as_str());
            if !str_eq(r.file.as_str(), file.as_str()) {
                let mut m = String::new();
                push_str(&mut m, "CMP 文件归属被修改：");
                push_str(&mut m, r.entry_id.as_str());
                push_str(&mut m, " 应属于 ");
                push_str(&mut m, file.as_str());
                return Err(invalid(m.as_str()));
            }
            if !str_eq(r.source.as_str(), items[k].source.as_str()) {
                let mut m = String::new();
                push_str(&mut m, "CMP 英文原文被修改：");
                push_str(&mut m, r.entry_id.as_str());
                push_str(&mut m, " ");
                push_str(&mut m, r.path.as_str());
                push_str(&mut m, "。只允许修改箭头右侧中文");
                return Err(invalid(m.as_str()));
            }
            if is_blank(r.target.as_str()) {
                let mut m = String::new();
                push_str(&mut m, "CMP 译文不能为空：");
                push_str(&mut m, r.entry_id.as_str());
                push_str(&mut m, " ");
                push_str(&mut m, r.path.as_str());
                return Err(invalid(m.as_str()));
            }
            if problems.len() > 0 {
                let mut m = String::new();
                push_str(&mut m, "CMP 译文未通过格式守卫：");
                push_str(&mut m, r.entry_id.as_str());
                push_str(&mut m, " ");
                push_str(&mut m, r.path.as_str());
                push_str(&mut m, "（");
                let joined = joined_messages_exec(problems);
                push_str(&mut m, joined.as_str());
                push_str(&mut m, "）");
                return Err(AppError::format_guard_rejected(m.as_str(), m.as_str()));
            }
            Ok(k)
        },
    }
}

pub open spec fn count_error(records: nat, items: nat) -> Seq<char> {
    "cmp_records="@ + decimal(records) + " current_items="@ + decimal(items)
}

/// Checks the records of a reviewed CMP file against the units of the task
/// book and gives the target of each unit. `guard` holds, by record, what
/// the format guard found in the record's target. Refused: another number
/// of records than units, a record at an unknown place, in another file,
/// with a changed source, a blank target or a target the guard warns about,
/// and two records that fill the same unit.
pub fn review_for_writeback(mode: &str, records: &Vec<Record>, items: &Vec<Item>, guard: &Vec<Vec<String>>) -> (r: Result<Reviewed, AppError>)
    requires
        guard@.len() == records@.len(),
    ensures
        ({
            let gv = guard@.map_values(|g: Vec<String>| strings_view(g@));
            let ids = filled(records@, items@);
            if records@.len() != items@.len() {
                r matches Err(e) && made(e, ErrorCode::CmpInvalid, "CMP 翻译条目数量与当前任务书不一致"@, count_error(
                    records@.len(),
                    items@.len(),
                ), false, false)
            } else {
                match first_write_problem(mode@, records@, items@, gv, 0) {
                    Some((code, m)) => r matches Err(e) && made(e, code, m, m, false, false),
                    None => if fresh_count(ids) != items@.len() {
                        r matches Err(e) && made(e, ErrorCode::CmpInvalid, "CMP 缺少一个或多个回填位置"@, "targets="@ + decimal(
                            fresh_count(ids),
                        ) + " items="@ + decimal(items@.len()), false, false)
                    } else {
                        r matches Ok(v) && pairs_view(v.unit_targets@) == records@.map_values(
                            |x: Record| (filled_id(items@, x), x.target@),
                        ) && strings_view(v.pending_reviews@) == records@.filter(|x: Record| kept_english(x)).map_values(
                            |x: Record| x.entry_id@,
                        )
                    },
                }
            }
        }),
{
    let ghost gv = guard@.map_values(|g: Vec<String>| strings_view(g@));
    let ghost ids = filled(records@, items@);
    if records.len() != items.len() {
        let mut m = String::new();
        push_str(&mut m, "cmp_records=");
        push_decimal(&mut m, records.len());
        push_str(&mut m, " current_items=");
        push_decimal(&mut m, items.len());
        return Err(invalid_with("CMP 翻译条目数量与当前任务书不一致", m.as_str()));
    }
    let mut unit_targets: Vec<(String, String)> = Vec::new();
    let mut pending: Vec<String> = Vec::new();
    let mut fresh: usize = 0;
    let mut i: usize = 0;
    while i < records.len()
        invariant
            i <= records.len(),
            records@.len() == items@.len(),
            guard@.len() == records@.len(),
            gv == guard@.map_values(|g: Vec<String>| strings_view(g@)),
            ids == filled(records@, items@),
            first_write_problem(mode@, records@, items@, gv, 0) == first_write_problem(mode@, records@, items@, gv, i as int),
            forall|j: int| 0 <= j < i ==> write_problem(mode@, #[trigger] records@[j], items@, gv[j]) is None,
            pairs_view(unit_targets@) == records@.take(i as int).map_values(|x: Record| (filled_id(items@, x), x.target@)),
            unit_targets@.len() == i,
            strings_view(pending@) == records@.take(i as int).filter(|x: Record| kept_english(x)).map_values(
                |x: Record| x.entry_id@,
            ),
            fresh == fresh_count(ids.take(i as int)),
            fresh <= i,
        decreases records.len() - i,
    {
        let r = &records[i];
        assert(gv[i as int] == strings_view(guard@[i as int]@));
        let k = match write_check(mode, r, items, &guard[i]) {
            Err(e) => {
                return Err(e);
            },
            Ok(k) => k,
        };
        assert(first_write_problem(mode@, records@, items@, gv, i + 1) == first_write_problem(mode@, records@, items@, gv, i as int));
        let ghost tk = ids.take(i + 1);
        proof {
            assert(tk.drop_last() =~= ids.take(i as int));
            assert(tk.last() == items@[k as int].id@);
        }
        let mut seen = false;
        let mut j: usize = 0;
        while j < unit_targets.len()
            invariant
                j <= unit_targets.len(),
                unit_targets@.len() == i,
                k < items@.len(),
                seen == exists|q: int| 0 <= q < j && unit_targets@[q].0@ == items@[k as int].id@,
            decreases unit_targets.len() - j,
        {
            if str_eq(unit_targets[j].0.as_str(), items[k].id.as_str()) {
                seen = true;
            }
            j += 1;
        }
        proof {
            let tv = pairs_view(unit_targets@);
            assert forall|q: int| 0 <= q < i implies #[trigger] ids.take(i as int)[q] == unit_targets@[q].0@ by {
                assert(tv[q] == records@.take(i as int).map_values(|x: Record| (filled_id(items@, x), x.target@))[q]);
            }
            if seen {
                let q = choose|q: int| 0 <= q < unit_targets@.len() && unit_targets@[q].0@ == items@[k as int].id@;
                assert(ids.take(i as int)[q] == tk.last());
                assert(ids.take(i as int).contains(tk.last()));
            } else {
                assert(!ids.take(i as int).contains(tk.last()));
            }
        }
        if !seen {
            fresh += 1;
        }
        let ghost before_targets = pairs_view(unit_targets@);
        unit_targets.push((items[k].id.clone(), r.target.clone()));
        proof {
            assert(pairs_view(unit_targets@) =~= before_targets.push((items@[k as int].id@, r.target@)));
            assert(records@.take(i + 1).map_values(|x: Record| (filled_id(items@, x), x.target@)) =~= records@.take(
                i as int,
            ).map_values(|x: Record| (filled_id(items@, x), x.target@)).push((items@[k as int].id@, r.target@)));
            reveal(Seq::filter);
            assert(records@.take(i + 1).drop_last() =~= records@.take(i as int));
        }
        if !str_eq(r.status.as_str(), "translated") && str_eq(r.target.as_str(), r.source.as_str()) {
            let ghost before = strings_view(pending@);
            pending.push(r.entry_id.clone());
            assert(strings_view(pending@) =~= before.push(r.entry_id@));
        }
        i += 1;
    }
    assert(ids.take(records.len() as int) =~= ids);
    assert(records@.take(records.len() as int) =~= records@);
    if fresh != items.len() {
        let mut m = String::new();
        push_str(&mut m, "targets=");
        push_decimal(&mut m, fresh);
        push_str(&mut m, " items=");
        push_decimal(&mut m, items.len());
        return Err(invalid_with("CMP 缺少一个或多个回填位置", m.as_str()));
    }
    Ok(Reviewed { unit_targets, pending_reviews: pending })
}

// ---------------------------------------------------------------------------
// The new language file.

/// `s` cut at each line feed (`str::split('\n')`).
pub open spec fn split_lines_at_feeds(s: Seq<char>) -> Seq<Seq<char>>
    decreases s.len(),
{
    if s.len() == 0 {
        seq![Seq::empty()]
    } else {
        let p = split_lines_at_feeds(s.drop_last());
        if s.last() == '\n' {
            p.push(Seq::empty())
        } else {
            p.update(p.len() - 1, p.last().push(s.last()))
        }
    }
}

proof fn lemma_split_nonempty(s: Seq<char>)
    ensures
        split_lines_at_feeds(s).len() > 0,
    decreases s.len(),
{
    if s.len() > 0 {
        lemma_split_nonempty(s.drop_last());
    }
}

fn split_at_feeds(s: &str) -> (out: Vec<String>)
    ensures
        strings_view(out@) == split_lines_at_feeds(s@),
{
    let v = chars_of(s);
    let mut out: Vec<String> = Vec::new();
    let mut current = String::new();
    let mut i: usize = 0;
    assert(v@.take(0) =~= Seq::<char>::empty());
    assert(strings_view(out@).push(current@) =~= seq![Seq::<char>::empty()]);
    while i < v.len()
        invariant
            i <= v.len(),
            v@ == s@,
            strings_view(out@).push(current@) == split_lines_at_feeds(v@.take(i as int)),
        decreases v.len() - i,
    {
        let ghost t = v@.take(i + 1);
        assert(t.drop_last() =~= v@.take(i as int));
        assert(t.last() == v@[i as int]);
        proof {
            lemma_split_nonempty(v@.take(i as int));
        }
        if v[i] == '\n' {
            let done = current;
            current = String::new();
            let ghost before = strings_view(out@);
            out.push(done);
            assert(strings_view(out@) =~= before.push(done@));
            assert(strings_view(out@).push(current@) =~= split_lines_at_feeds(t));
        } else {
            let ghost before = current@;
            push_char(&mut current, v[i]);
            assert(strings_view(out@).push(current@) =~= split_lines_at_feeds(t));
        }
        i += 1;
    }
    assert(v@.take(v.len() as int) =~= s@);
    let ghost before = strings_view(out@);
    out.push(current);
    assert(strings_view(out@) =~= before.push(current@));
    out
}

/// The value a language entry takes: its translation in the same shape (a
/// list value gets one line per line of the translation), or the value
/// itself when there is no translation for it.
pub open spec fn lang_value_with(v: LangVal, t: Option<Seq<char>>) -> LangVal {
    match t {
        None => v,
        Some(text) => match v {
            LangVal::Text(_) => LangVal::Text(text),
            LangVal::Lines(_) => LangVal::Lines(split_lines_at_feeds(text)),
        },
    }
}

/// Puts the translations (by key) into the language file's values.
pub fn apply_lang_targets(map: &mut LangMap, results: &Vec<(String, String)>)
    ensures
        map_view(final(map)@) == map_view(old(map)@).map_values(
            |e: (Seq<char>, LangVal)| (e.0, lang_value_with(e.1, lookup(pairs_view(results@), e.0))),
        ),
{
    let ghost m0 = map_view(map@);
    let n = map.len();
    let mut out: LangMap = Vec::new();
    let mut i: usize = 0;
    while i < n
        invariant
            i <= n,
            n == map@.len(),
            m0 == map_view(map@),
            map_view(out@) == m0.take(i as int).map_values(
                |e: (Seq<char>, LangVal)| (e.0, lang_value_with(e.1, lookup(pairs_view(results@), e.0))),
            ),
        decreases n - i,
    {
        let key = map[i].0.clone();
        let found = lookup_exec(results, key.as_str());
        let value: LangValue = match found {
            None => match &map[i].1 {
                LangValue::Text(t) => LangValue::Text(t.clone()),
                LangValue::Lines(ls) => {
                    let mut copy: Vec<String> = Vec::new();
                    let mut k: usize = 0;
                    while k < ls.len()
                        invariant
                            k <= ls.len(),
                            strings_view(copy@) == strings_view(ls@).take(k as int),
                        decreases ls.len() - k,
                    {
                        let ghost before = strings_view(copy@);
                        copy.push(ls[k].clone());
                        assert(strings_view(copy@) =~= before.push(ls@[k as int]@));
                        assert(strings_view(ls@).take(k + 1) =~= strings_view(ls@).take(k as int).push(ls@[k as int]@));
                        k += 1;
                    }
                    assert(strings_view(ls@).take(ls.len() as int) =~= strings_view(ls@));
                    LangValue::Lines(copy)
                },
            },
            Some(t) => match &map[i].1 {
                LangValue::Text(_) => LangValue::Text(t),
                LangValue::Lines(_) => LangValue::Lines(split_at_feeds(t.as_str())),
            },
        };
        proof {
            assert(m0[i as int] == (map@[i as int].0@, map@[i as int].1@));
            assert(value@ == lang_value_with(map@[i as int].1@, lookup(pairs_view(results@), key@)));
        }
        let ghost before = map_view(out@);
        out.push((key, value));
        assert(map_view(out@) =~= before.push((key@, value@)));
        assert(m0.take(i + 1) =~= m0.take(i as int).push(m0[i as int]));
        i += 1;
    }
    assert(m0.take(n as int) =~= m0);
    *map = out;
}


// ---------------------------------------------------------------------------
// The entries written back.

/// The text of each entry once its units are filled, or the first refusal.
pub open spec fn rendered_all(es: Seq<Entry>, ts: Seq<(Seq<char>, Seq<char>)>) -> Result<Seq<Seq<char>>, Seq<char>>
    decreases es.len(),
{
    if es.len() == 0 {
        Ok(Seq::empty())
    } else {
        match rendered_all(es.drop_last(), ts) {
            Err(m) => Err(m),
            Ok(v) => match rendered_entry(es.last(), ts) {
                Ok(t) => Ok(v.push(t)),
                Err(m) => Err(m),
            },
        }
    }
}

/// Fills the units of every entry with the reviewed targets `unit_targets`.
/// Refused, as an invalid CMP file, when a unit has no target.
pub fn render_targets(entries: &Vec<Entry>, unit_targets: &Vec<(String, String)>) -> (r: Result<Vec<String>, AppError>)
    ensures
        match rendered_all(entries@, pairs_view(unit_targets@)) {
            Ok(v) => r matches Ok(x) && strings_view(x@) == v,
            Err(m) => r matches Err(e) && refused_with(e, (m, "render CMP entry: "@ + m)),
        },
        r matches Ok(x) ==> x@.len() == entries@.len(),
{
    proof { lemma_rendered_all_len(entries@, pairs_view(unit_targets@)); }
    let ghost ts = pairs_view(unit_targets@);
    let mut out: Vec<String> = Vec::new();
    let mut i: usize = 0;
    assert(entries@.take(0) =~= Seq::<Entry>::empty());
    assert(strings_view(out@) =~= Seq::<Seq<char>>::empty());
    while i < entries.len()
        invariant
            i <= entries.len(),
            ts == pairs_view(unit_targets@),
            rendered_all(entries@.take(i as int), ts) == Ok::<Seq<Seq<char>>, Seq<char>>(strings_view(out@)),
        decreases entries.len() - i,
    {
        let ghost t = entries@.take(i + 1);
        assert(t.drop_last() =~= entries@.take(i as int));
        assert(t.last() == entries@[i as int]);
        match render_entry(&entries[i], unit_targets) {
            Ok(text) => {
                let ghost before = strings_view(out@);
                let ghost tv = text@;
                out.push(text);
                assert(strings_view(out@) =~= before.push(tv));
                assert(rendered_all(t, ts) == Ok::<Seq<Seq<char>>, Seq<char>>(before.push(tv)));
            },
            Err(m) => {
                let mut internal = String::new();
                push_str(&mut internal, "render CMP entry: ");
                push_str(&mut internal, m.as_str());
                proof { lemma_rendered_all_stops(entries@, ts, i as int + 1); }
                return Err(invalid_with(m.as_str(), internal.as_str()));
            },
        }
        i += 1;
    }
    assert(entries@.take(entries.len() as int) =~= entries@);
    Ok(out)
}

/// One text for each entry.
proof fn lemma_rendered_all_len(es: Seq<Entry>, ts: Seq<(Seq<char>, Seq<char>)>)
    ensures
        rendered_all(es, ts) matches Ok(v) ==> v.len() == es.len(),
    decreases es.len(),
{
    if es.len() > 0 {
        lemma_rendered_all_len(es.drop_last(), ts);
    }
}

/// A refusal among the first `n` entries is the refusal of all of them.
proof fn lemma_rendered_all_stops(es: Seq<Entry>, ts: Seq<(Seq<char>, Seq<char>)>, n: int)
    requires
        0 <= n <= es.len(),
        rendered_all(es.take(n), ts) is Err,
    ensures
        rendered_all(es, ts) == rendered_all(es.take(n), ts),
    decreases es.len() - n,
{
    if n < es.len() {
        let t = es.take(n + 1);
        assert(t.drop_last() =~= es.take(n));
        lemma_rendered_all_stops(es, ts, n + 1);
    } else {
        assert(es.take(n) =~= es);
    }
}

/// The write-back of the entries: each entry with its text, the warnings of
/// the report, and the entries that still hold a failed translation (with
/// their source and the text written).
#[derive(Debug)]
pub struct Writeback {
    pub results: Vec<(String, String)>,
    pub warnings: Vec<(String, String)>,
    pub failed: Vec<(String, String, String)>,
}

pub struct WritebackView {
    pub results: Seq<(Seq<char>, Seq<char>)>,
    pub warnings: Seq<(Seq<char>, Seq<char>)>,
    pub failed: Seq<(Seq<char>, Seq<char>, Seq<char>)>,
}

pub open spec fn triples_view(v: Seq<(String, String, String)>) -> Seq<(Seq<char>, Seq<char>, Seq<char>)> {
    v.map_values(|x: (String, String, String)| (x.0@, x.1@, x.2@))
}

impl View for Writeback {
    type V = WritebackView;

    open spec fn view(&self) -> WritebackView {
        WritebackView { results: pairs_view(self.results@), warnings: pairs_view(self.warnings@), failed: triples_view(self.failed@) }
    }
}

pub open spec fn pending_message() -> Seq<char> {
    "机器翻译失败或未通过格式守卫，CMP 仍保留英文原文"@
}

/// The refusal of an entry whose whole text fails the format guard.
pub open spec fn entry_guard_message(id: Seq<char>, problems: Seq<Seq<char>>) -> Seq<char> {
    "CMP 回填后的完整条目未通过格式守卫："@ + id + "（"@ + joined_messages(problems) + "）"@
}

/// One entry written back: an untouched entry keeps its source and is
/// reported with its reason; another is refused when the format guard warns
/// about its whole text, and reported when it still holds the English text.
pub open spec fn writeback_entry(w: WritebackView, e: Entry, target: Seq<char>, problems: Seq<Seq<char>>, pending: Seq<Seq<char>>) -> Result<WritebackView, Seq<char>> {
    match e.kind {
        EntryKind::Untouched(reason) => Ok(WritebackView {
            results: w.results.push((e.id@, e.source@)),
            warnings: w.warnings.push((e.id@, reason@)),
            failed: w.failed.push((e.id@, e.source@, e.source@)),
        }),
        _ => if problems.len() > 0 {
            Err(entry_guard_message(e.id@, problems))
        } else if pending.contains(e.id@) {
            Ok(WritebackView {
                results: w.results.push((e.id@, target)),
                warnings: w.warnings.push((e.id@, pending_message())),
                failed: w.failed.push((e.id@, e.source@, target)),
            })
        } else {
            Ok(WritebackView { results: w.results.push((e.id@, target)), ..w })
        },
    }
}

pub open spec fn empty_writeback() -> WritebackView {
    WritebackView { results: Seq::empty(), warnings: Seq::empty(), failed: Seq::empty() }
}

/// The write-back of the first `n` entries, whose texts are `targets`, the
/// components of their sources `sd` and of their texts `td`.
pub open spec fn writeback_upto(es: Seq<Entry>, targets: Seq<Seq<char>>, pending: Seq<Seq<char>>, sd: Seq<Option<Document>>, td: Seq<Option<Document>>, n: int) -> Result<WritebackView, Seq<char>>
    decreases n,
{
    if n <= 0 {
        Ok(empty_writeback())
    } else {
        match writeback_upto(es, targets, pending, sd, td, n - 1) {
            Err(m) => Err(m),
            Ok(w) => writeback_entry(w, es[n - 1], targets[n - 1], guard(es[n - 1].source@, targets[n - 1], sd[n - 1], td[n - 1]), pending),
        }
    }
}

fn listed(v: &Vec<String>, id: &str) -> (r: bool)
    ensures
        r == strings_view(v@).contains(id@),
{
    let mut i: usize = 0;
    while i < v.len()
        invariant
            i <= v.len(),
            forall|k: int| 0 <= k < i ==> strings_view(v@)[k] != id@,
        decreases v.len() - i,
    {
        if str_eq(v[i].as_str(), id) {
            assert(strings_view(v@)[i as int] == id@);
            return true;
        }
        i += 1;
    }
    false
}

/// Writes back one entry, as `writeback_entry` says.
fn write_entry(w: &mut Writeback, e: &Entry, target: &str, pending: &Vec<String>, sdoc: &Option<Document>, tdoc: &Option<Document>) -> (r: Result<(), AppError>)
    ensures
        match writeback_entry(old(w)@, *e, target@, guard(e.source@, target@, *sdoc, *tdoc), strings_view(pending@)) {
            Ok(v) => r is Ok && final(w)@ == v,
            Err(m) => r matches Err(x) && made(x, ErrorCode::FormatGuardRejected, m, m, false, false),
        },
{
    let ghost old_w = w@;
    match &e.kind {
        EntryKind::Untouched(reason) => {
            w.results.push((e.id.clone(), e.source.clone()));
            w.warnings.push((e.id.clone(), reason.clone()));
            w.failed.push((e.id.clone(), e.source.clone(), e.source.clone()));
            assert(pairs_view(w.results@) =~= old_w.results.push((e.id@, e.source@)));
            assert(pairs_view(w.warnings@) =~= old_w.warnings.push((e.id@, reason@)));
            assert(triples_view(w.failed@) =~= old_w.failed.push((e.id@, e.source@, e.source@)));
            Ok(())
        },
        _ => {
            let problems = warnings(e.source.as_str(), target, sdoc.as_ref(), tdoc.as_ref());
            if problems.len() > 0 {
                let mut m = String::new();
                push_str(&mut m, "CMP 回填后的完整条目未通过格式守卫：");
                push_str(&mut m, e.id.as_str());
                push_str(&mut m, "（");
                let joined = joined_messages_exec(&problems);
                push_str(&mut m, joined.as_str());
                push_str(&mut m, "）");
                return Err(AppError::format_guard_rejected(m.as_str(), m.as_str()));
            }
            if listed(pending, e.id.as_str()) {
                w.results.push((e.id.clone(), crate::text::owned(target)));
                w.warnings.push((e.id.clone(), crate::text::owned("机器翻译失败或未通过格式守卫，CMP 仍保留英文原文")));
                w.failed.push((e.id.clone(), e.source.clone(), crate::text::owned(target)));
                assert(pairs_view(w.results@) =~= old_w.results.push((e.id@, target@)));
                assert(pairs_view(w.warnings@) =~= old_w.warnings.push((e.id@, pending_message())));
                assert(triples_view(w.failed@) =~= old_w.failed.push((e.id@, e.source@, target@)));
            } else {
                w.results.push((e.id.clone(), crate::text::owned(target)));
                assert(pairs_view(w.results@) =~= old_w.results.push((e.id@, target@)));
            }
            Ok(())
        },
    }
}

/// Checks every filled entry with the format guard and gathers what is
/// written back and reported. `targets` are the texts of `render_targets`,
/// `source_docs` and `target_docs` the components read from the sources and
/// from those texts, `pending` the entries that still hold the English text.
/// Refused, by the format guard, at the first entry whose whole text it warns
/// about.
pub fn writeback_results(
    entries: &Vec<Entry>,
    targets: &Vec<String>,
    pending: &Vec<String>,
    source_docs: &Vec<Option<Document>>,
    target_docs: &Vec<Option<Document>>,
) -> (r: Result<Writeback, AppError>)
    requires
        targets@.len() == entries@.len(),
        source_docs@.len() == entries@.len(),
        target_docs@.len() == entries@.len(),
    ensures
        match writeback_upto(entries@, strings_view(targets@), strings_view(pending@), source_docs@, target_docs@, entries@.len() as int) {
            Ok(w) => r matches Ok(x) && x@ == w,
            Err(m) => r matches Err(e) && made(e, ErrorCode::FormatGuardRejected, m, m, false, false),
        },
        r matches Ok(x) ==> x.results@.len() == entries@.len(),
{
    proof { lemma_writeback_length(entries@, strings_view(targets@), strings_view(pending@), source_docs@, target_docs@, entries@.len() as int); }
    let ghost tv = strings_view(targets@);
    let ghost pv = strings_view(pending@);
    let mut w = Writeback { results: Vec::new(), warnings: Vec::new(), failed: Vec::new() };
    assert(w@ == empty_writeback()) by {
        assert(pairs_view(w.results@) =~= Seq::<(Seq<char>, Seq<char>)>::empty());
        assert(pairs_view(w.warnings@) =~= Seq::<(Seq<char>, Seq<char>)>::empty());
        assert(triples_view(w.failed@) =~= Seq::<(Seq<char>, Seq<char>, Seq<char>)>::empty());
    }
    let mut i: usize = 0;
    while i < entries.len()
        invariant
            i <= entries.len(),
            targets@.len() == entries@.len(),
            source_docs@.len() == entries@.len(),
            target_docs@.len() == entries@.len(),
            tv == strings_view(targets@),
            pv == strings_view(pending@),
            writeback_upto(entries@, tv, pv, source_docs@, target_docs@, i as int) == Ok::<WritebackView, Seq<char>>(w@),
        decreases entries.len() - i,
    {
        assert(tv[i as int] == targets@[i as int]@);
        match write_entry(&mut w, &entries[i], targets[i].as_str(), pending, &source_docs[i], &target_docs[i]) {
            Ok(()) => {},
            Err(e) => {
                proof { lemma_writeback_stops(entries@, tv, pv, source_docs@, target_docs@, i as int + 1); }
                return Err(e);
            },
        }
        i += 1;
    }
    Ok(w)
}

/// One text is written back for each entry.
proof fn lemma_writeback_length(es: Seq<Entry>, targets: Seq<Seq<char>>, pending: Seq<Seq<char>>, sd: Seq<Option<Document>>, td: Seq<Option<Document>>, n: int)
    requires
        0 <= n,
    ensures
        writeback_upto(es, targets, pending, sd, td, n) matches Ok(w) ==> w.results.len() == n,
    decreases n,
{
    if n > 0 {
        lemma_writeback_length(es, targets, pending, sd, td, n - 1);
    }
}

/// A refusal among the first `n` entries is the refusal of all of them.
proof fn lemma_writeback_stops(es: Seq<Entry>, targets: Seq<Seq<char>>, pending: Seq<Seq<char>>, sd: Seq<Option<Document>>, td: Seq<Option<Document>>, n: int)
    requires
        0 <= n <= es.len(),
        writeback_upto(es, targets, pending, sd, td, n) is Err,
    ensures
        writeback_upto(es, targets, pending, sd, td, es.len() as int) == writeback_upto(es, targets, pending, sd, td, n),
    decreases es.len() - n,
{
    if n < es.len() {
        lemma_writeback_stops(es, targets, pending, sd, td, n + 1);
    }
}


// ---------------------------------------------------------------------------
// The replacements of each chapter file.

/// The replacement of one segment: its index with the text of its entry
/// (empty when the entry has none).
pub open spec fn replacement_of(seg: Segment, results: Seq<(Seq<char>, Seq<char>)>) -> (usize, Seq<char>) {
    (seg.index, match lookup(results, seg.cache_id@) {
        Some(t) => t,
        None => Seq::empty(),
    })
}

/// The first group of the file `path`.
pub open spec fn group_index(g: Seq<(Seq<char>, Seq<(usize, Seq<char>)>)>, path: Seq<char>) -> Option<int>
    decreases g.len(),
{
    if g.len() == 0 {
        None
    } else {
        match group_index(g.drop_last(), path) {
            Some(k) => Some(k),
            None => if g.last().0 == path { Some(g.len() - 1) } else { None },
        }
    }
}

/// Adds a replacement to the group of its file, or opens that group.
pub open spec fn add_to_group(g: Seq<(Seq<char>, Seq<(usize, Seq<char>)>)>, path: Seq<char>, x: (usize, Seq<char>)) -> Seq<(Seq<char>, Seq<(usize, Seq<char>)>)> {
    match group_index(g, path) {
        Some(k) => g.update(k, (g[k].0, g[k].1.push(x))),
        None => g.push((path, seq![x])),
    }
}

/// The replacements of the first `n` segments, grouped by file in the order
/// in which the files first occur; in a group, in segment order.
pub open spec fn grouped_replacements(segs: Seq<Segment>, results: Seq<(Seq<char>, Seq<char>)>, n: int) -> Seq<(Seq<char>, Seq<(usize, Seq<char>)>)>
    decreases n,
{
    if n <= 0 {
        Seq::empty()
    } else {
        add_to_group(grouped_replacements(segs, results, n - 1), segs[n - 1].path@, replacement_of(segs[n - 1], results))
    }
}

pub open spec fn group_view(g: Seq<(String, Vec<(usize, String)>)>) -> Seq<(Seq<char>, Seq<(usize, Seq<char>)>)> {
    g.map_values(|x: (String, Vec<(usize, String)>)| (x.0@, x.1@.map_values(|y: (usize, String)| (y.0, y.1@))))
}

proof fn lemma_group_index_prefix(g: Seq<(Seq<char>, Seq<(usize, Seq<char>)>)>, path: Seq<char>, n: int)
    requires
        0 <= n <= g.len(),
        group_index(g.take(n), path) is Some,
    ensures
        group_index(g, path) == group_index(g.take(n), path),
    decreases g.len() - n,
{
    if n < g.len() {
        assert(g.take(n + 1).drop_last() =~= g.take(n));
        lemma_group_index_prefix(g, path, n + 1);
    } else {
        assert(g.take(n) =~= g);
    }
}

proof fn lemma_group_index_bounds(g: Seq<(Seq<char>, Seq<(usize, Seq<char>)>)>, path: Seq<char>)
    ensures
        group_index(g, path) matches Some(k) ==> 0 <= k < g.len() && g[k].0 == path,
    decreases g.len(),
{
    if g.len() > 0 {
        lemma_group_index_bounds(g.drop_last(), path);
    }
}

fn find_group(g: &Vec<(String, Vec<(usize, String)>)>, path: &str) -> (r: Option<usize>)
    ensures
        match r {
            Some(k) => group_index(group_view(g@), path@) == Some(k as int),
            None => group_index(group_view(g@), path@) is None,
        },
{
    let ghost gv = group_view(g@);
    let mut k: usize = 0;
    assert(gv.take(0) =~= Seq::<(Seq<char>, Seq<(usize, Seq<char>)>)>::empty());
    while k < g.len()
        invariant
            k <= g.len(),
            gv == group_view(g@),
            group_index(gv.take(k as int), path@) is None,
        decreases g.len() - k,
    {
        let ghost t = gv.take(k + 1);
        assert(t.drop_last() =~= gv.take(k as int));
        assert(t.last() == gv[k as int]);
        if str_eq(g[k].0.as_str(), path) {
            proof { lemma_group_index_prefix(gv, path@, k + 1); }
            return Some(k);
        }
        k += 1;
    }
    assert(gv.take(g.len() as int) =~= gv);
    None
}

/// Gathers the replacements of the chapter segments by file: each segment's
/// index with the text written back for its entry, the files in the order in
/// which they first occur.
pub fn group_replacements(segments: &Vec<Segment>, results: &Vec<(String, String)>) -> (r: Vec<(String, Vec<(usize, String)>)>)
    ensures
        group_view(r@) == grouped_replacements(segments@, pairs_view(results@), segments@.len() as int),
{
    let mut g: Vec<(String, Vec<(usize, String)>)> = Vec::new();
    let mut i: usize = 0;
    assert(group_view(g@) =~= Seq::<(Seq<char>, Seq<(usize, Seq<char>)>)>::empty());
    while i < segments.len()
        invariant
            i <= segments.len(),
            group_view(g@) == grouped_replacements(segments@, pairs_view(results@), i as int),
        decreases segments.len() - i,
    {
        let seg = &segments[i];
        let text = match lookup_exec(results, seg.cache_id.as_str()) {
            Some(t) => t,
            None => String::new(),
        };
        let ghost x = replacement_of(segments@[i as int], pairs_view(results@));
        assert(x == (seg.index, text@));
        let ghost before = group_view(g@);
        proof { lemma_group_index_bounds(before, seg.path@); }
        assert(grouped_replacements(segments@, pairs_view(results@), i as int + 1) == add_to_group(before, seg.path@, x));
        match find_group(&g, seg.path.as_str()) {
            Some(k) => {
                assert(group_index(before, seg.path@) == Some(k as int));
                let mut moved: (String, Vec<(usize, String)>) = (String::new(), Vec::new());
                std::mem::swap(&mut moved, &mut g[k]);
                let ghost old_list = moved.1@;
                moved.1.push((seg.index, text));
                let ghost new_list = moved.1@.map_values(|y: (usize, String)| (y.0, y.1@));
                assert(new_list =~= old_list.map_values(|y: (usize, String)| (y.0, y.1@)).push(x));
                g.set(k, moved);
                assert(group_view(g@) =~= before.update(k as int, (before[k as int].0, before[k as int].1.push(x))));
                assert(group_view(g@) == add_to_group(before, seg.path@, x));
            },
            None => {
                let path = seg.path.clone();
                let mut list: Vec<(usize, String)> = Vec::new();
                list.push((seg.index, text));
                assert(list@.map_values(|y: (usize, String)| (y.0, y.1@)) =~= seq![x]);
                g.push((path, list));
                assert(group_view(g@) =~= before.push((seg.path@, seq![x])));
                assert(group_view(g@) == add_to_group(before, seg.path@, x));
            },
        }
        i += 1;
    }
    g
}


// ---------------------------------------------------------------------------
// The counts of a dry run.

/// How many of the texts written back equal the source of their entry.
pub open spec fn unchanged_count(es: Seq<Entry>, rs: Seq<(Seq<char>, Seq<char>)>, n: int) -> nat
    decreases n,
{
    if n <= 0 {
        0
    } else {
        unchanged_count(es, rs, n - 1) + if rs[n - 1].1 == es[n - 1].source@ { 1nat } else { 0nat }
    }
}

/// Counts the entries whose text written back is their source.
pub fn count_unchanged(entries: &Vec<Entry>, results: &Vec<(String, String)>) -> (n: usize)
    requires
        results@.len() == entries@.len(),
    ensures
        n == unchanged_count(entries@, pairs_view(results@), entries@.len() as int),
{
    let mut n: usize = 0;
    let mut i: usize = 0;
    while i < entries.len()
        invariant
            i <= entries.len(),
            results@.len() == entries@.len(),
            n == unchanged_count(entries@, pairs_view(results@), i as int),
            n <= i,
        decreases entries.len() - i,
    {
        if str_eq(results[i].1.as_str(), entries[i].source.as_str()) {
            n += 1;
        }
        i += 1;
    }
    n
}


// ---------------------------------------------------------------------------
// Whether a CMP file belongs to the task book it is applied to.

/// A CMP file belongs to the task book `current_dir` (canonical) scanned in
/// `mode` when it names that directory and that mode.
pub fn check_task_book(recorded_dir: &str, current_dir: &str, recorded_mode: &str, mode: &str) -> (r: Result<(), AppError>)
    ensures
        recorded_dir@ != current_dir@ ==> (r matches Err(e) && refused_with(e, (
            "CMP 不属于当前扫描的任务书目录"@,
            "recorded="@ + recorded_dir@ + " current="@ + current_dir@,
        ))),
        recorded_dir@ == current_dir@ && recorded_mode@ != mode@ ==> (r matches Err(e) && refused_with(e, (
            "CMP 的任务书模式与当前目录不一致"@,
            "recorded="@ + recorded_mode@ + " current="@ + mode@,
        ))),
        recorded_dir@ == current_dir@ && recorded_mode@ == mode@ ==> r is Ok,
{
    if !str_eq(recorded_dir, current_dir) {
        let mut m = String::new();
        push_str(&mut m, "recorded=");
        push_str(&mut m, recorded_dir);
        push_str(&mut m, " current=");
        push_str(&mut m, current_dir);
        return Err(invalid_with("CMP 不属于当前扫描的任务书目录", m.as_str()));
    }
    if !str_eq(recorded_mode, mode) {
        let mut m = String::new();
        push_str(&mut m, "recorded=");
        push_str(&mut m, recorded_mode);
        push_str(&mut m, " current=");
        push_str(&mut m, mode);
        return Err(invalid_with("CMP 的任务书模式与当前目录不一致", m.as_str()));
    }
    Ok(())
}

pub open spec fn source_changed_fault() -> (Seq<char>, Seq<char>) {
    (
        "任务书内容在 CMP 生成后发生了变化，请重新扫描并翻译"@,
        "CMP entry count or source fingerprint differs from the current task book"@,
    )
}

/// The entries of the task book are those the CMP file was made from: as
/// many, with the fingerprint it records.
pub open spec fn source_matches(file: CmpFile, entries: Seq<Entry>) -> bool {
    file.meta.total_entries == entries.len() && file.meta.source_fingerprint@ == hex_lower(sha256_of(entries_bytes(entries)))
}

/// Refuses a CMP file made from other entries than those of the task book.
pub fn check_source(file: &CmpFile, entries: &Vec<Entry>) -> (r: Result<(), AppError>)
    ensures
        source_matches(*file, entries@) ==> r is Ok,
        !source_matches(*file, entries@) ==> (r matches Err(e)
            && made(e, ErrorCode::SourceChanged, source_changed_fault().0, source_changed_fault().1, false, false)),
{
    if file.meta.total_entries != entries.len() || !str_eq(file.meta.source_fingerprint.as_str(), source_fingerprint(entries).as_str()) {
        return Err(AppError::source_changed(
            "任务书内容在 CMP 生成后发生了变化，请重新扫描并翻译",
            "CMP entry count or source fingerprint differs from the current task book",
        ));
    }
    Ok(())
}


// ---------------------------------------------------------------------------
// A dry run: what applying would do, counted without stopping at a refusal.

/// The counts of a dry run: the entries that can be applied (those kept in
/// English included), those the format guard refuses, those whose text is
/// their source, and the refusals.
pub struct DryRun {
    pub applicable: usize,
    pub guard_failures: usize,
    pub unchanged: usize,
    pub issues: Vec<String>,
}

pub struct DryRunView {
    pub applicable: nat,
    pub guard_failures: nat,
    pub unchanged: nat,
    pub issues: Seq<Seq<char>>,
}

impl View for DryRun {
    type V = DryRunView;

    open spec fn view(&self) -> DryRunView {
        DryRunView {
            applicable: self.applicable as nat,
            guard_failures: self.guard_failures as nat,
            unchanged: self.unchanged as nat,
            issues: strings_view(self.issues@),
        }
    }
}

/// One entry of a dry run: an untouched entry is applied as its source; an
/// entry whose whole text the format guard warns about is counted as a
/// refusal with its message; another is applied, and unchanged when its text
/// is its source.
pub open spec fn dry_run_entry(d: DryRunView, e: Entry, target: Seq<char>, problems: Seq<Seq<char>>) -> DryRunView {
    match e.kind {
        EntryKind::Untouched(_) => DryRunView { applicable: d.applicable + 1, unchanged: d.unchanged + 1, ..d },
        _ => if problems.len() > 0 {
            DryRunView {
                guard_failures: d.guard_failures + 1,
                issues: d.issues.push(entry_guard_message(e.id@, problems)),
                ..d
            }
        } else {
            DryRunView {
                applicable: d.applicable + 1,
                unchanged: if target == e.source@ { d.unchanged + 1 } else { d.unchanged },
                ..d
            }
        },
    }
}

/// The dry run of the first `n` entries.
pub open spec fn dry_run_upto(es: Seq<Entry>, targets: Seq<Seq<char>>, sd: Seq<Option<Document>>, td: Seq<Option<Document>>, n: int) -> DryRunView
    decreases n,
{
    if n <= 0 {
        DryRunView { applicable: 0, guard_failures: 0, unchanged: 0, issues: Seq::empty() }
    } else {
        dry_run_entry(dry_run_upto(es, targets, sd, td, n - 1), es[n - 1], targets[n - 1], guard(es[n - 1].source@, targets[n - 1], sd[n - 1], td[n - 1]))
    }
}

proof fn lemma_dry_run_bounds(es: Seq<Entry>, targets: Seq<Seq<char>>, sd: Seq<Option<Document>>, td: Seq<Option<Document>>, n: int)
    requires
        0 <= n,
    ensures
        dry_run_upto(es, targets, sd, td, n).applicable + dry_run_upto(es, targets, sd, td, n).guard_failures == n,
        dry_run_upto(es, targets, sd, td, n).unchanged <= n,
    decreases n,
{
    if n > 0 {
        lemma_dry_run_bounds(es, targets, sd, td, n - 1);
    }
}

fn dry_run_one(d: &mut DryRun, e: &Entry, target: &str, sdoc: &Option<Document>, tdoc: &Option<Document>)
    requires
        old(d).applicable + old(d).guard_failures < usize::MAX,
        old(d).unchanged < usize::MAX,
    ensures
        final(d)@ == dry_run_entry(old(d)@, *e, target@, guard(e.source@, target@, *sdoc, *tdoc)),
{
    let ghost before = d@;
    match &e.kind {
        EntryKind::Untouched(_) => {
            d.applicable = d.applicable + 1;
            d.unchanged = d.unchanged + 1;
        },
        _ => {
            let problems = warnings(e.source.as_str(), target, sdoc.as_ref(), tdoc.as_ref());
            if problems.len() > 0 {
                let mut m = String::new();
                push_str(&mut m, "CMP 回填后的完整条目未通过格式守卫：");
                push_str(&mut m, e.id.as_str());
                push_str(&mut m, "（");
                let joined = joined_messages_exec(&problems);
                push_str(&mut m, joined.as_str());
                push_str(&mut m, "）");
                d.guard_failures = d.guard_failures + 1;
                d.issues.push(m);
                assert(strings_view(d.issues@) =~= before.issues.push(entry_guard_message(e.id@, strings_view(problems@))));
            } else {
                d.applicable = d.applicable + 1;
                if str_eq(target, e.source.as_str()) {
                    d.unchanged = d.unchanged + 1;
                }
            }
        },
    }
}

/// Counts what applying the filled entries would do, as `writeback_results`
/// checks them, without stopping at the first refusal.
pub fn dry_run(
    entries: &Vec<Entry>,
    targets: &Vec<String>,
    source_docs: &Vec<Option<Document>>,
    target_docs: &Vec<Option<Document>>,
) -> (r: DryRun)
    requires
        targets@.len() == entries@.len(),
        source_docs@.len() == entries@.len(),
        target_docs@.len() == entries@.len(),
    ensures
        r@ == dry_run_upto(entries@, strings_view(targets@), source_docs@, target_docs@, entries@.len() as int),
{
    let ghost tv = strings_view(targets@);
    let mut d = DryRun { applicable: 0, guard_failures: 0, unchanged: 0, issues: Vec::new() };
    assert(strings_view(d.issues@) =~= Seq::<Seq<char>>::empty());
    let mut i: usize = 0;
    while i < entries.len()
        invariant
            i <= entries.len(),
            targets@.len() == entries@.len(),
            source_docs@.len() == entries@.len(),
            target_docs@.len() == entries@.len(),
            tv == strings_view(targets@),
            d@ == dry_run_upto(entries@, tv, source_docs@, target_docs@, i as int),
        decreases entries.len() - i,
    {
        proof { lemma_dry_run_bounds(entries@, tv, source_docs@, target_docs@, i as int); }
        assert(tv[i as int] == targets@[i as int]@);
        dry_run_one(&mut d, &entries[i], targets[i].as_str(), &source_docs[i], &target_docs[i]);
        i += 1;
    }
    d
}

} // verus!
