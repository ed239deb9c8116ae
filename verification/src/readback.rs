//! A written CMP file reads back as the document it was written from.
//!
//! The text that `render` writes is split into lines, the lines into frames,
//! and the frames put together again; this module follows a written file
//! through each of these steps.

use vstd::prelude::*;
use crate::cmp::{
    Document, Record, Meta, Location, Decoded, FrameView, RecordView, header, meta_json, meta_head,
    meta_middle, meta_tail, flag, location_json, record_text, records_text, of_file, groups_text,
    head_text, files_in_order, document_text, document_problem, lines_of, lines_from, line_end,
    framing, frames_from, next_significant, significant, walk, assembled, pair_of, status_ok,
    first_bad, bad_record, same_place, place_taken, record_view, records_view, holds_file,
    decoded_fits,
};
use crate::json::{json_quoted, json_leading_string, reads_back};
use crate::text::{trim, lead_ws, trail_ws, is_space, lex_lt, starts, without_bom, decimal, digit_char};

verus! {

// ---------------------------------------------------------------------------
// Lines.

/// Lines put together, each ended by a line feed.
pub open spec fn joined(ls: Seq<Seq<char>>) -> Seq<char>
    decreases ls.len(),
{
    if ls.len() == 0 {
        Seq::empty()
    } else {
        joined(ls.drop_last()) + ls.last() + seq!['\n']
    }
}

/// No line feed in `s`.
pub open spec fn no_break(s: Seq<char>) -> bool {
    forall|i: int| 0 <= i < s.len() ==> s[i] != '\n'
}

/// A line that reads back as itself: no line feed in it, no carriage return
/// at its end.
pub open spec fn clean_line(l: Seq<char>) -> bool {
    no_break(l) && (l.len() == 0 || l[l.len() - 1] != '\r')
}

/// The comment line under the header.
pub open spec fn hint() -> Seq<char> {
    "# 只修改箭头右侧的中文；保留 @ 行、英文原文、引号与 JSON 转义。"@
}

/// The line that holds a record's source and target.
pub open spec fn pair_line(r: Record) -> Seq<char> {
    json_quoted(r.source@) + " -> "@ + json_quoted(r.target@)
}

/// The lines of the records: location, pair, blank line.
pub open spec fn record_lines(rs: Seq<Record>) -> Seq<Seq<char>>
    decreases rs.len(),
{
    if rs.len() == 0 {
        Seq::empty()
    } else {
        record_lines(rs.drop_last()) + seq!["@ "@ + location_json(rs.last()), pair_line(rs.last()), Seq::empty()]
    }
}

/// The lines of the file groups of `fs`.
pub open spec fn group_lines(fs: Seq<Seq<char>>, rs: Seq<Record>) -> Seq<Seq<char>>
    decreases fs.len(),
{
    if fs.len() == 0 {
        Seq::empty()
    } else {
        group_lines(fs.drop_last(), rs) + seq!["## file "@ + json_quoted(fs.last()), Seq::empty()]
            + record_lines(of_file(rs, fs.last()))
    }
}

/// The lines of a written CMP file.
pub open spec fn written_lines(d: Document, fs: Seq<Seq<char>>) -> Seq<Seq<char>> {
    seq![header(), hint(), "# meta "@ + meta_json(d.meta), Seq::empty()] + group_lines(fs, d.records@)
}

proof fn lemma_joined_add(a: Seq<Seq<char>>, b: Seq<Seq<char>>)
    ensures
        joined(a + b) == joined(a) + joined(b),
    decreases b.len(),
{
    if b.len() == 0 {
        assert(a + b =~= a);
        assert(joined(a) + joined(b) =~= joined(a));
    } else {
        assert((a + b).drop_last() =~= a + b.drop_last());
        lemma_joined_add(a, b.drop_last());
        assert(joined(a + b) =~= joined(a) + joined(b));
    }
}

proof fn lemma_record_lines_text(rs: Seq<Record>)
    ensures
        joined(record_lines(rs)) == records_text(rs),
    decreases rs.len(),
{
    reveal_strlit("\n");
    reveal_strlit("\n\n");
    if rs.len() > 0 {
        let r = rs.last();
        let three = seq!["@ "@ + location_json(r), pair_line(r), Seq::<char>::empty()];
        lemma_record_lines_text(rs.drop_last());
        lemma_joined_add(record_lines(rs.drop_last()), three);
        reveal_with_fuel(joined, 4);
        assert(three.drop_last().drop_last().drop_last() =~= Seq::<Seq<char>>::empty());
        assert(joined(three) =~= record_text(r));
    }
}

proof fn lemma_group_lines_text(fs: Seq<Seq<char>>, rs: Seq<Record>)
    ensures
        joined(group_lines(fs, rs)) == groups_text(fs, rs),
    decreases fs.len(),
{
    reveal_strlit("\n\n");
    if fs.len() > 0 {
        let f = fs.last();
        let two = seq!["## file "@ + json_quoted(f), Seq::<char>::empty()];
        lemma_group_lines_text(fs.drop_last(), rs);
        lemma_record_lines_text(of_file(rs, f));
        lemma_joined_add(group_lines(fs.drop_last(), rs), two);
        lemma_joined_add(group_lines(fs.drop_last(), rs) + two, record_lines(of_file(rs, f)));
        reveal_with_fuel(joined, 3);
        assert(two.drop_last().drop_last() =~= Seq::<Seq<char>>::empty());
        assert(joined(two) =~= "## file "@ + json_quoted(f) + "\n\n"@);
        assert(joined(group_lines(fs, rs)) =~= groups_text(fs, rs));
    }
}

/// The text of a document is its written lines, put together.
proof fn lemma_written_text(d: Document, fs: Seq<Seq<char>>)
    ensures
        joined(written_lines(d, fs)) == document_text(d, fs),
{
    reveal_strlit("\n");
    reveal_strlit("\n\n");
    reveal_strlit("# 只修改箭头右侧的中文；保留 @ 行、英文原文、引号与 JSON 转义。\n");
    reveal_strlit("# 只修改箭头右侧的中文；保留 @ 行、英文原文、引号与 JSON 转义。");
    let head = seq![header(), hint(), "# meta "@ + meta_json(d.meta), Seq::<char>::empty()];
    lemma_joined_add(head, group_lines(fs, d.records@));
    lemma_group_lines_text(fs, d.records@);
    reveal_with_fuel(joined, 5);
    assert(head.drop_last().drop_last().drop_last().drop_last() =~= Seq::<Seq<char>>::empty());
    assert(joined(head) =~= head_text(d.meta));
}

/// Where the line that starts at `k` ends, when the first line feed from `k`
/// on is at `e`.
proof fn lemma_line_end_at(s: Seq<char>, k: int, e: int)
    requires
        0 <= k <= e < s.len(),
        s[e] == '\n',
        forall|j: int| k <= j < e ==> s[j] != '\n',
    ensures
        line_end(s, k) == e,
    decreases e - k,
{
    if k < e {
        lemma_line_end_at(s, k + 1, e);
    }
}

/// Splitting lines that were put together gives them back.
proof fn lemma_lines_of_joined(ls: Seq<Seq<char>>)
    requires
        forall|i: int| 0 <= i < ls.len() ==> clean_line(#[trigger] ls[i]),
    ensures
        lines_of(joined(ls)) == ls,
{
    lemma_lines_from_joined(ls, 0);
    assert(ls.skip(0) =~= ls);
}

proof fn lemma_lines_from_joined(ls: Seq<Seq<char>>, i: int)
    requires
        0 <= i <= ls.len(),
        forall|j: int| 0 <= j < ls.len() ==> clean_line(#[trigger] ls[j]),
    ensures
        lines_from(joined(ls), joined(ls.take(i)).len() as int) == ls.skip(i),
    decreases ls.len() - i,
{
    let s = joined(ls);
    let k = joined(ls.take(i)).len() as int;
    if i == ls.len() {
        assert(ls.take(i) =~= ls);
        assert(ls.skip(i) =~= Seq::<Seq<char>>::empty());
    } else {
        let l = ls[i];
        let rest = joined(ls.skip(i + 1));
        assert(ls =~= ls.take(i) + (seq![l] + ls.skip(i + 1)));
        lemma_joined_add(ls.take(i), seq![l] + ls.skip(i + 1));
        lemma_joined_add(seq![l], ls.skip(i + 1));
        reveal_with_fuel(joined, 2);
        assert(seq![l].drop_last() =~= Seq::<Seq<char>>::empty());
        assert(joined(seq![l]) =~= l + seq!['\n']);
        assert(s =~= joined(ls.take(i)) + l + seq!['\n'] + rest);
        assert(ls.take(i + 1).drop_last() =~= ls.take(i));
        assert(joined(ls.take(i + 1)).len() == k + l.len() + 1);
        assert forall|j: int| k <= j < k + l.len() implies s[j] != '\n' by {
            assert(s[j] == l[j - k]);
        }
        lemma_line_end_at(s, k, k + l.len());
        assert(s.subrange(k, k + l.len()) =~= l);
        lemma_lines_from_joined(ls, i + 1);
        assert(ls.skip(i) =~= seq![l] + ls.skip(i + 1));
    }
}

// ---------------------------------------------------------------------------
// What serde_json promises of the strings of a document.

/// Each string of a record reads back from the literal written for it.
pub open spec fn record_reads_back(r: Record) -> bool {
    &&& reads_back(r.file@)
    &&& reads_back(r.entry_id@)
    &&& reads_back(r.path@)
    &&& reads_back(r.source@)
    &&& reads_back(r.target@)
    &&& reads_back(r.status@)
}

/// Each string of the meta reads back from the literal written for it.
pub open spec fn meta_reads_back(m: Meta) -> bool {
    &&& reads_back(m.task_id@)
    &&& reads_back(m.quests_dir@)
    &&& reads_back(m.mode@)
    &&& reads_back(m.source_fingerprint@)
    &&& reads_back(m.provider@)
    &&& reads_back(m.base_url@)
    &&& reads_back(m.model@)
    &&& reads_back(m.style@)
    &&& reads_back(m.glossary_fingerprint@)
}

/// Each string of the document reads back from the literal written for it.
pub open spec fn strings_read_back(d: Document) -> bool {
    meta_reads_back(d.meta) && forall|k: int| 0 <= k < d.records@.len() ==> record_reads_back(#[trigger] d.records@[k])
}

// ---------------------------------------------------------------------------
// The written lines are clean.

broadcast proof fn lemma_no_break_add(a: Seq<char>, b: Seq<char>)
    requires
        no_break(a),
        no_break(b),
    ensures
        #[trigger] no_break(a + b),
{
    assert forall|i: int| 0 <= i < (a + b).len() implies (a + b)[i] != '\n' by {
        if i < a.len() {
            assert((a + b)[i] == a[i]);
        } else {
            assert((a + b)[i] == b[i - a.len()]);
        }
    }
}

proof fn lemma_quoted(s: Seq<char>)
    requires
        reads_back(s),
    ensures
        no_break(json_quoted(s)),
        json_quoted(s).len() >= 2,
        json_quoted(s)[0] == '"',
        json_quoted(s)[json_quoted(s).len() - 1] == '"',
{
}

proof fn lemma_decimal_no_break(n: nat)
    ensures
        no_break(decimal(n)),
    decreases n,
{
    if n >= 10 {
        lemma_decimal_no_break(n / 10);
        assert(decimal(n) =~= decimal(n / 10) + seq![digit_char(n % 10)]);
        broadcast use lemma_no_break_add;
        assert(no_break(seq![digit_char(n % 10)]));
    } else {
        assert(no_break(seq![digit_char(n)]));
    }
}

proof fn lemma_meta_line(m: Meta)
    requires
        meta_reads_back(m),
    ensures
        clean_line("# meta "@ + meta_json(m)),
        ("# meta "@ + meta_json(m)).len() > 0,
        ("# meta "@ + meta_json(m))[0] == '#',
        ("# meta "@ + meta_json(m))[("# meta "@ + meta_json(m)).len() - 1] == '}',
{
    broadcast use lemma_no_break_add;
    reveal_strlit("# meta ");
    reveal_strlit("{\"version\":");
    reveal_strlit(",\"task_id\":");
    reveal_strlit(",\"quests_dir\":");
    reveal_strlit(",\"mode\":");
    reveal_strlit(",\"source_fingerprint\":");
    reveal_strlit(",\"provider\":");
    reveal_strlit(",\"base_url\":");
    reveal_strlit(",\"model\":");
    reveal_strlit(",\"style\":");
    reveal_strlit(",\"glossary_enabled\":");
    reveal_strlit(",\"glossary_fingerprint\":");
    reveal_strlit(",\"total_entries\":");
    reveal_strlit(",\"cache_hits\":");
    reveal_strlit("}");
    reveal_strlit("true");
    reveal_strlit("false");
    lemma_quoted(m.task_id@);
    lemma_quoted(m.quests_dir@);
    lemma_quoted(m.mode@);
    lemma_quoted(m.source_fingerprint@);
    lemma_quoted(m.provider@);
    lemma_quoted(m.base_url@);
    lemma_quoted(m.model@);
    lemma_quoted(m.style@);
    lemma_quoted(m.glossary_fingerprint@);
    lemma_decimal_no_break(m.version as nat);
    lemma_decimal_no_break(m.total_entries as nat);
    lemma_decimal_no_break(m.cache_hits as nat);
    assert(no_break("# meta "@));
    assert(no_break("{\"version\":"@));
    assert(no_break(",\"task_id\":"@));
    assert(no_break(",\"quests_dir\":"@));
    assert(no_break(",\"mode\":"@));
    assert(no_break(",\"source_fingerprint\":"@));
    assert(no_break(",\"provider\":"@));
    assert(no_break(",\"base_url\":"@));
    assert(no_break(",\"model\":"@));
    assert(no_break(",\"style\":"@));
    assert(no_break(",\"glossary_enabled\":"@));
    assert(no_break(",\"glossary_fingerprint\":"@));
    assert(no_break(",\"total_entries\":"@));
    assert(no_break(",\"cache_hits\":"@));
    assert(no_break("}"@));
    assert(no_break(flag(m.glossary_enabled)));
    assert(no_break(meta_head(m)));
    assert(no_break(meta_middle(m)));
    assert(no_break(meta_tail(m)));
    assert(no_break(meta_json(m)));
    assert(no_break("# meta "@ + meta_json(m)));
}

proof fn lemma_location_line(r: Record)
    requires
        record_reads_back(r),
    ensures
        clean_line("@ "@ + location_json(r)),
        ("@ "@ + location_json(r)).len() > 2,
        ("@ "@ + location_json(r))[0] == '@',
        ("@ "@ + location_json(r))[("@ "@ + location_json(r)).len() - 1] == '}',
{
    broadcast use lemma_no_break_add;
    reveal_strlit("@ ");
    reveal_strlit("{\"file\":");
    reveal_strlit(",\"entry_id\":");
    reveal_strlit(",\"path\":");
    reveal_strlit(",\"status\":");
    reveal_strlit("}");
    lemma_quoted(r.file@);
    lemma_quoted(r.entry_id@);
    lemma_quoted(r.path@);
    lemma_quoted(r.status@);
    assert(no_break("@ "@));
    assert(no_break("{\"file\":"@));
    assert(no_break(",\"entry_id\":"@));
    assert(no_break(",\"path\":"@));
    assert(no_break(",\"status\":"@));
    assert(no_break("}"@));
    assert(no_break(location_json(r)));
    assert(no_break("@ "@ + location_json(r)));
}

proof fn lemma_pair_line(r: Record)
    requires
        record_reads_back(r),
    ensures
        clean_line(pair_line(r)),
        pair_line(r).len() > 0,
        pair_line(r)[0] == '"',
        pair_line(r)[pair_line(r).len() - 1] == '"',
{
    broadcast use lemma_no_break_add;
    reveal_strlit(" -> ");
    lemma_quoted(r.source@);
    lemma_quoted(r.target@);
    assert(no_break(" -> "@));
    assert(no_break(pair_line(r)));
}

proof fn lemma_file_line(f: Seq<char>)
    requires
        reads_back(f),
    ensures
        clean_line("## file "@ + json_quoted(f)),
        ("## file "@ + json_quoted(f)).len() > 8,
        ("## file "@ + json_quoted(f))[0] == '#',
        ("## file "@ + json_quoted(f))[1] == '#',
        ("## file "@ + json_quoted(f))[("## file "@ + json_quoted(f)).len() - 1] == '"',
{
    broadcast use lemma_no_break_add;
    reveal_strlit("## file ");
    lemma_quoted(f);
    assert(no_break("## file "@));
}

// ---------------------------------------------------------------------------
// The frames of the written lines.

/// The frames of the records whose lines start at index `i`.
pub open spec fn record_frames(rs: Seq<Record>, i: int) -> Seq<FrameView>
    decreases rs.len(),
{
    if rs.len() == 0 {
        Seq::empty()
    } else {
        let k = i + 3 * (rs.len() - 1);
        record_frames(rs.drop_last(), i) + seq![
            FrameView::Location((k + 1) as nat, location_json(rs.last()), Some(((k + 2) as nat, pair_line(rs.last())))),
        ]
    }
}

/// The frames of the file groups of `fs`, whose lines start at index `i`.
pub open spec fn group_frames(fs: Seq<Seq<char>>, rs: Seq<Record>, i: int) -> Seq<FrameView>
    decreases fs.len(),
{
    if fs.len() == 0 {
        Seq::empty()
    } else {
        let k = i + group_lines(fs.drop_last(), rs).len();
        group_frames(fs.drop_last(), rs, i) + seq![FrameView::File((k + 1) as nat, json_quoted(fs.last()))]
            + record_frames(of_file(rs, fs.last()), k + 2)
    }
}

/// The frames of a written CMP file.
pub open spec fn written_frames(d: Document, fs: Seq<Seq<char>>) -> Seq<FrameView> {
    seq![FrameView::Meta(3, meta_json(d.meta))] + group_frames(fs, d.records@, 4)
}

proof fn lemma_trim_same(s: Seq<char>)
    requires
        s.len() > 0,
        !is_space(s[0]),
        !is_space(s[s.len() - 1]),
    ensures
        trim(s) == s,
{
    assert(lead_ws(s) == 0);
    assert(s.skip(0) =~= s);
    assert(trail_ws(s) == 0);
    assert(s.take(s.len() as int) =~= s);
}

proof fn lemma_trim_empty()
    ensures
        trim(Seq::<char>::empty()) == Seq::<char>::empty(),
{
    let e = Seq::<char>::empty();
    assert(lead_ws(e) == 0);
    assert(e.skip(0) =~= e);
    assert(trail_ws(e) == 0);
    assert(e.take(0) =~= e);
}

/// The frames of the three lines of one record.
proof fn lemma_record_frame(ls: Seq<Seq<char>>, j: int, r: Record)
    requires
        0 <= j,
        j + 3 <= ls.len(),
        ls[j] == "@ "@ + location_json(r),
        ls[j + 1] == pair_line(r),
        ls[j + 2] == Seq::<char>::empty(),
        record_reads_back(r),
    ensures
        frames_from(ls, j) == seq![
            FrameView::Location((j + 1) as nat, location_json(r), Some(((j + 2) as nat, pair_line(r)))),
        ] + frames_from(ls, j + 3),
{
    reveal_strlit("@ ");
    reveal_strlit("# meta ");
    reveal_strlit("## file ");
    lemma_location_line(r);
    lemma_pair_line(r);
    lemma_trim_empty();
    let t = ls[j];
    lemma_trim_same(t);
    lemma_trim_same(ls[j + 1]);
    assert(frames_from(ls, j + 2) == frames_from(ls, j + 3));
    assert(!starts(t, "# meta "@)) by {
        if starts(t, "# meta "@) {
            assert(t.take(7)[0] == t[0]);
        }
    }
    assert(!starts(t, "## file "@)) by {
        if starts(t, "## file "@) {
            assert(t.take(8)[0] == t[0]);
        }
    }
    assert(t.take(2) =~= "@ "@);
    assert(starts(t, "@ "@));
    assert(significant(ls[j + 1]));
    assert(next_significant(ls, j + 1) == Some(j + 1));
    assert(t.skip(2) =~= location_json(r));
}

/// The frames of the two lines that head a file group.
proof fn lemma_file_frame(ls: Seq<Seq<char>>, j: int, f: Seq<char>)
    requires
        0 <= j,
        j + 2 <= ls.len(),
        ls[j] == "## file "@ + json_quoted(f),
        ls[j + 1] == Seq::<char>::empty(),
        reads_back(f),
    ensures
        frames_from(ls, j) == seq![FrameView::File((j + 1) as nat, json_quoted(f))] + frames_from(ls, j + 2),
{
    reveal_strlit("# meta ");
    reveal_strlit("## file ");
    lemma_file_line(f);
    lemma_trim_empty();
    let t = ls[j];
    lemma_trim_same(t);
    assert(frames_from(ls, j + 1) == frames_from(ls, j + 2));
    assert(!starts(t, "# meta "@)) by {
        if starts(t, "# meta "@) {
            assert(t.take(7)[1] == t[1]);
        }
    }
    assert(t.take(8) =~= "## file "@);
    assert(t.skip(8) =~= json_quoted(f));
}

/// The record with index `a` in the records of file `f` is a record of `rs`
/// that holds `f`, with `a` records of `f` before it.
proof fn lemma_of_file_index(rs: Seq<Record>, f: Seq<char>, a: int)
    requires
        0 <= a < of_file(rs, f).len(),
    ensures
        exists|i: int|
            0 <= i < rs.len() && rs[i] == of_file(rs, f)[a] && rs[i].file@ == f && #[trigger] of_file(
                rs.take(i),
                f,
            ).len() == a,
    decreases rs.len(),
{
    reveal(Seq::filter);
    let p = rs.drop_last();
    if a < of_file(p, f).len() {
        lemma_of_file_index(p, f, a);
        let i = choose|i: int|
            0 <= i < p.len() && p[i] == of_file(p, f)[a] && p[i].file@ == f && #[trigger] of_file(p.take(i), f).len()
                == a;
        assert(p.take(i) =~= rs.take(i));
        assert(rs[i] == of_file(rs, f)[a]);
    } else {
        let i = rs.len() - 1;
        assert(rs.take(i) =~= p);
        assert(rs[i].file@ == f);
    }
}

proof fn lemma_of_file_reads_back(rs: Seq<Record>, f: Seq<char>)
    requires
        forall|k: int| 0 <= k < rs.len() ==> record_reads_back(#[trigger] rs[k]),
    ensures
        forall|a: int| 0 <= a < of_file(rs, f).len() ==> record_reads_back(#[trigger] of_file(rs, f)[a]),
{
    assert forall|a: int| 0 <= a < of_file(rs, f).len() implies record_reads_back(#[trigger] of_file(rs, f)[a]) by {
        lemma_of_file_index(rs, f, a);
    }
}

/// The frames of a block of record lines.
proof fn lemma_record_block(ls: Seq<Seq<char>>, i: int, rs: Seq<Record>)
    requires
        0 <= i,
        i + 3 * rs.len() <= ls.len(),
        ls.subrange(i, i + 3 * rs.len()) == record_lines(rs),
        forall|k: int| 0 <= k < rs.len() ==> record_reads_back(#[trigger] rs[k]),
    ensures
        frames_from(ls, i) == record_frames(rs, i) + frames_from(ls, i + 3 * rs.len()),
    decreases rs.len(),
{
    if rs.len() == 0 {
        assert(record_frames(rs, i) + frames_from(ls, i) =~= frames_from(ls, i));
    } else {
        let p = rs.drop_last();
        let r = rs.last();
        let n: int = (3 * p.len()) as int;
        lemma_record_lines_len(p);
        assert(ls.subrange(i, i + n) =~= ls.subrange(i, i + 3 * rs.len()).subrange(0, n));
        assert(record_lines(rs).subrange(0, n) =~= record_lines(p));
        assert forall|k: int| 0 <= k < p.len() implies record_reads_back(#[trigger] p[k]) by {
            assert(p[k] == rs[k]);
        }
        lemma_record_block(ls, i, p);
        assert(ls[i + n] == ls.subrange(i, i + 3 * rs.len())[n]);
        assert(ls[i + n + 1] == ls.subrange(i, i + 3 * rs.len())[n + 1]);
        assert(ls[i + n + 2] == ls.subrange(i, i + 3 * rs.len())[n + 2]);
        assert(record_reads_back(rs[rs.len() - 1]));
        lemma_record_frame(ls, i + n, r);
        assert(frames_from(ls, i) =~= record_frames(rs, i) + frames_from(ls, i + 3 * rs.len()));
    }
}

proof fn lemma_record_lines_len(rs: Seq<Record>)
    ensures
        record_lines(rs).len() == 3 * rs.len(),
    decreases rs.len(),
{
    if rs.len() > 0 {
        lemma_record_lines_len(rs.drop_last());
    }
}

/// The frames of a block of file groups.
proof fn lemma_group_block(ls: Seq<Seq<char>>, i: int, fs: Seq<Seq<char>>, rs: Seq<Record>)
    requires
        0 <= i,
        i + group_lines(fs, rs).len() <= ls.len(),
        ls.subrange(i, i + group_lines(fs, rs).len()) == group_lines(fs, rs),
        forall|j: int| 0 <= j < fs.len() ==> reads_back(#[trigger] fs[j]),
        forall|k: int| 0 <= k < rs.len() ==> record_reads_back(#[trigger] rs[k]),
    ensures
        frames_from(ls, i) == group_frames(fs, rs, i) + frames_from(ls, i + group_lines(fs, rs).len()),
    decreases fs.len(),
{
    if fs.len() == 0 {
        assert(group_frames(fs, rs, i) + frames_from(ls, i) =~= frames_from(ls, i));
    } else {
        let p = fs.drop_last();
        let f = fs.last();
        let n: int = group_lines(p, rs).len() as int;
        let g = of_file(rs, f);
        let total: int = group_lines(fs, rs).len() as int;
        lemma_record_lines_len(g);
        assert(total == n + 2 + 3 * g.len());
        assert(ls.subrange(i, i + n) =~= ls.subrange(i, i + total).subrange(0, n));
        assert(group_lines(fs, rs).subrange(0, n) =~= group_lines(p, rs));
        assert forall|j: int| 0 <= j < p.len() implies reads_back(#[trigger] p[j]) by {
            assert(p[j] == fs[j]);
        }
        lemma_group_block(ls, i, p, rs);
        assert(ls[i + n] == ls.subrange(i, i + total)[n]);
        assert(ls[i + n + 1] == ls.subrange(i, i + total)[n + 1]);
        assert(reads_back(fs[fs.len() - 1]));
        lemma_file_frame(ls, i + n, f);
        assert(ls.subrange(i + n + 2, i + total) =~= ls.subrange(i, i + total).subrange(n + 2, total));
        assert(group_lines(fs, rs).subrange(n + 2, total) =~= record_lines(g));
        lemma_of_file_reads_back(rs, f);
        lemma_record_block(ls, i + n + 2, g);
        assert(frames_from(ls, i) =~= group_frames(fs, rs, i) + frames_from(ls, i + total));
    }
}

/// A written file frames as written.
proof fn lemma_written_framing(d: Document, fs: Seq<Seq<char>>)
    requires
        strings_read_back(d),
        forall|j: int| 0 <= j < fs.len() ==> reads_back(#[trigger] fs[j]),
    ensures
        framing(document_text(d, fs)) == Ok::<Seq<FrameView>, Seq<char>>(written_frames(d, fs)),
{
    let rs = d.records@;
    let ls = written_lines(d, fs);
    let gl = group_lines(fs, rs);
    reveal_strlit("# FTB Translater CMP v1");
    reveal_strlit("# 只修改箭头右侧的中文；保留 @ 行、英文原文、引号与 JSON 转义。");
    reveal_strlit("# meta ");
    reveal_strlit("## file ");
    lemma_meta_line(d.meta);
    lemma_trim_empty();
    assert forall|k: int| 0 <= k < gl.len() implies clean_line(#[trigger] gl[k]) by {
        lemma_group_lines_clean(fs, rs, k);
    }
    assert(clean_line(header()));
    assert(clean_line(hint()));
    assert forall|k: int| 0 <= k < ls.len() implies clean_line(#[trigger] ls[k]) by {
        if k >= 4 {
            assert(ls[k] == gl[k - 4]);
        }
    }
    lemma_written_text(d, fs);
    lemma_lines_of_joined(ls);
    // the head: header, hint, meta line, blank line
    assert(without_bom(header()) == header());
    lemma_trim_same(hint());
    lemma_trim_same(ls[2]);
    assert(!starts(hint(), "# meta "@)) by {
        if starts(hint(), "# meta "@) {
            assert(hint().take(7)[2] == hint()[2]);
        }
    }
    assert(!starts(hint(), "## file "@)) by {
        if starts(hint(), "## file "@) {
            assert(hint().take(8)[1] == hint()[1]);
        }
    }
    assert(ls[2].take(7) =~= "# meta "@);
    assert(ls[2].skip(7) =~= meta_json(d.meta));
    assert(frames_from(ls, 3) == frames_from(ls, 4));
    assert(frames_from(ls, 2) == seq![FrameView::Meta(3, meta_json(d.meta))] + frames_from(ls, 3));
    assert(frames_from(ls, 1) == frames_from(ls, 2));
    assert(ls.subrange(4, 4 + gl.len() as int) =~= gl);
    lemma_group_block(ls, 4, fs, rs);
    assert(frames_from(ls, 4 + gl.len() as int) =~= Seq::<FrameView>::empty());
    assert(frames_from(ls, 1) =~= written_frames(d, fs));
}

proof fn lemma_record_lines_clean(rs: Seq<Record>, k: int)
    requires
        0 <= k < record_lines(rs).len(),
        forall|j: int| 0 <= j < rs.len() ==> record_reads_back(#[trigger] rs[j]),
    ensures
        clean_line(record_lines(rs)[k]),
    decreases rs.len(),
{
    let p = rs.drop_last();
    lemma_record_lines_len(p);
    if k < record_lines(p).len() {
        assert forall|j: int| 0 <= j < p.len() implies record_reads_back(#[trigger] p[j]) by {
            assert(p[j] == rs[j]);
        }
        lemma_record_lines_clean(p, k);
    } else {
        assert(record_reads_back(rs[rs.len() - 1]));
        lemma_location_line(rs.last());
        lemma_pair_line(rs.last());
    }
}

proof fn lemma_group_lines_clean(fs: Seq<Seq<char>>, rs: Seq<Record>, k: int)
    requires
        0 <= k < group_lines(fs, rs).len(),
        forall|j: int| 0 <= j < fs.len() ==> reads_back(#[trigger] fs[j]),
        forall|j: int| 0 <= j < rs.len() ==> record_reads_back(#[trigger] rs[j]),
    ensures
        clean_line(group_lines(fs, rs)[k]),
    decreases fs.len(),
{
    let p = fs.drop_last();
    let n: int = group_lines(p, rs).len() as int;
    if k < n {
        assert forall|j: int| 0 <= j < p.len() implies reads_back(#[trigger] p[j]) by {
            assert(p[j] == fs[j]);
        }
        lemma_group_lines_clean(p, rs, k);
    } else if k < n + 2 {
        assert(reads_back(fs[fs.len() - 1]));
        lemma_file_line(fs.last());
    } else {
        lemma_of_file_reads_back(rs, fs.last());
        lemma_record_lines_clean(of_file(rs, fs.last()), k - n - 2);
    }
}

// ---------------------------------------------------------------------------
// Putting the written frames together.

/// The records of the file groups of `fs`, group after group, each group in
/// the order of the document.
pub open spec fn grouped(fs: Seq<Seq<char>>, rs: Seq<Record>) -> Seq<Record>
    decreases fs.len(),
{
    if fs.len() == 0 {
        Seq::empty()
    } else {
        grouped(fs.drop_last(), rs) + of_file(rs, fs.last())
    }
}

/// `loc` is where the record `r` goes.
pub open spec fn location_of(loc: Location, r: Record) -> bool {
    &&& loc.file@ == r.file@
    &&& loc.entry_id@ == r.entry_id@
    &&& loc.path@ == r.path@
    &&& loc.status@ == r.status@
}

/// The JSON of the meta and location frames decodes to what was written:
/// the meta of `d`, and the location of the record whose location line it is.
pub open spec fn decodes_as_written(frs: Seq<FrameView>, ds: Seq<Decoded>, d: Document) -> bool {
    &&& decoded_fits(frs, ds)
    &&& forall|k: int|
        #![trigger frs[k]]
        0 <= k < frs.len() ==> match frs[k] {
            FrameView::Meta(_, raw) => raw == meta_json(d.meta) ==> ds[k] == Decoded::Meta(
                Ok::<Meta, String>(d.meta),
            ),
            FrameView::Location(_, raw, _) => forall|j: int|
                0 <= j < d.records@.len() && raw == location_json(#[trigger] d.records@[j]) ==> (
                ds[k] matches Decoded::Location(Ok(loc)) && location_of(loc, d.records@[j])),
            _ => true,
        }
}

/// Where the frames of group `g` start.
pub open spec fn group_start(fs: Seq<Seq<char>>, rs: Seq<Record>, g: int) -> int {
    1 + group_frames(fs.take(g), rs, 4).len() as int
}

proof fn lemma_record_frames_at(rs: Seq<Record>, i: int, a: int)
    requires
        0 <= a < rs.len(),
    ensures
        record_frames(rs, i).len() == rs.len(),
        record_frames(rs, i)[a] == FrameView::Location(
            (i + 3 * a + 1) as nat,
            location_json(rs[a]),
            Some(((i + 3 * a + 2) as nat, pair_line(rs[a]))),
        ),
    decreases rs.len(),
{
    lemma_record_frames_len(rs.drop_last(), i);
    if a < rs.len() - 1 {
        lemma_record_frames_at(rs.drop_last(), i, a);
    }
}

proof fn lemma_record_frames_len(rs: Seq<Record>, i: int)
    ensures
        record_frames(rs, i).len() == rs.len(),
    decreases rs.len(),
{
    if rs.len() > 0 {
        lemma_record_frames_len(rs.drop_last(), i);
    }
}

proof fn lemma_group_frames_prefix(fs: Seq<Seq<char>>, rs: Seq<Record>, i: int, g: int)
    requires
        0 <= g <= fs.len(),
    ensures
        group_frames(fs.take(g), rs, i).len() <= group_frames(fs, rs, i).len(),
        group_frames(fs, rs, i).subrange(0, group_frames(fs.take(g), rs, i).len() as int) == group_frames(
            fs.take(g),
            rs,
            i,
        ),
    decreases fs.len(),
{
    if g == fs.len() {
        assert(fs.take(g) =~= fs);
        assert(group_frames(fs, rs, i).subrange(0, group_frames(fs, rs, i).len() as int) =~= group_frames(fs, rs, i));
    } else {
        let p = fs.drop_last();
        assert(fs.take(g) =~= p.take(g));
        lemma_group_frames_prefix(p, rs, i, g);
        let n = group_frames(p.take(g), rs, i).len() as int;
        assert(group_frames(fs, rs, i).subrange(0, n) =~= group_frames(p, rs, i).subrange(0, n));
    }
}

/// The frames of group `g`: its file frame, then one location frame per record.
proof fn lemma_group_at(d: Document, fs: Seq<Seq<char>>, g: int)
    requires
        0 <= g < fs.len(),
    ensures
        ({
            let rs = d.records@;
            let frs = written_frames(d, fs);
            let rf = of_file(rs, fs[g]);
            let p = group_start(fs, rs, g);
            &&& p + 1 + rf.len() == group_start(fs, rs, g + 1) <= frs.len()
            &&& frs[p] matches FrameView::File(_, raw) && raw == json_quoted(fs[g])
            &&& forall|a: int|
                0 <= a < rf.len() ==> (#[trigger] frs[p + 1 + a] matches FrameView::Location(_, raw, Some((_, t)))
                    && raw == location_json(rf[a]) && t == pair_line(rf[a]))
        }),
{
    let rs = d.records@;
    let frs = written_frames(d, fs);
    let rf = of_file(rs, fs[g]);
    let p = group_start(fs, rs, g);
    let t1 = fs.take(g + 1);
    assert(t1.drop_last() =~= fs.take(g));
    assert(t1.last() == fs[g]);
    let k: int = 4 + group_lines(fs.take(g), rs).len() as int;
    let gf1 = group_frames(t1, rs, 4);
    let gf0 = group_frames(fs.take(g), rs, 4);
    lemma_record_frames_len(rf, k + 2);
    assert(gf1 == gf0 + seq![FrameView::File((k + 1) as nat, json_quoted(fs[g]))] + record_frames(rf, k + 2));
    lemma_group_frames_prefix(fs, rs, 4, g + 1);
    let gf = group_frames(fs, rs, 4);
    assert(gf.subrange(0, gf1.len() as int) == gf1);
    assert(frs[p] == gf[p - 1]);
    assert(gf[p - 1] == gf1[p - 1]);
    assert forall|a: int|
        0 <= a < rf.len() implies (#[trigger] frs[p + 1 + a] matches FrameView::Location(_, raw, Some((_, t)))
            && raw == location_json(rf[a]) && t == pair_line(rf[a])) by {
        lemma_record_frames_at(rf, k + 2, a);
        assert(frs[p + 1 + a] == gf[p + a]);
        assert(gf[p + a] == gf1[p + a]);
        assert(gf1[p + a] == record_frames(rf, k + 2)[a]);
    }
}

proof fn lemma_no_bad(rs: Seq<Record>, k: int)
    requires
        0 <= k,
        first_bad(rs, k) is None,
    ensures
        forall|i: int| k <= i < rs.len() ==> !bad_record(rs, i),
    decreases rs.len() - k,
{
    if k < rs.len() {
        lemma_no_bad(rs, k + 1);
    }
}

proof fn lemma_grouped_index(fs: Seq<Seq<char>>, rs: Seq<Record>, p: int)
    requires
        0 <= p < grouped(fs, rs).len(),
    ensures
        exists|g: int, i: int|
            0 <= g < fs.len() && 0 <= i < rs.len() && rs[i] == grouped(fs, rs)[p] && #[trigger] rs[i].file@ == #[trigger] fs[g],
    decreases fs.len(),
{
    let q = fs.drop_last();
    let n = grouped(q, rs).len() as int;
    if p < n {
        lemma_grouped_index(q, rs, p);
        let (g, i) = choose|g: int, i: int|
            0 <= g < q.len() && 0 <= i < rs.len() && rs[i] == grouped(q, rs)[p] && #[trigger] rs[i].file@ == #[trigger] q[g];
        assert(fs[g] == q[g]);
    } else {
        lemma_of_file_index(rs, fs.last(), p - n);
        let i = choose|i: int|
            0 <= i < rs.len() && rs[i] == of_file(rs, fs.last())[p - n] && rs[i].file@ == fs.last() && #[trigger] of_file(
                rs.take(i),
                fs.last(),
            ).len() == p - n;
        assert(rs[i].file@ == fs[fs.len() - 1]);
    }
}

/// No record read before the `a`-th of group `g` takes the place of that record.
proof fn lemma_place_free(d: Document, fs: Seq<Seq<char>>, g: int, a: int, i: int, loc: Location)
    requires
        document_problem(d) is None,
        files_in_order(fs, d.records@),
        0 <= g < fs.len(),
        0 <= a < of_file(d.records@, fs[g]).len(),
        0 <= i < d.records@.len(),
        d.records@[i] == of_file(d.records@, fs[g])[a],
        d.records@[i].file@ == fs[g],
        of_file(d.records@.take(i), fs[g]).len() == a,
        location_of(loc, d.records@[i]),
    ensures
        !place_taken(records_view(grouped(fs.take(g), d.records@) + of_file(d.records@, fs[g]).take(a)), loc),
{
    let rs = d.records@;
    let rf = of_file(rs, fs[g]);
    let before = grouped(fs.take(g), rs);
    let prev = before + rf.take(a);
    let rv = records_view(prev);
    lemma_no_bad(rs, 0);
    if place_taken(rv, loc) {
        let j = choose|j: int| 0 <= j < rv.len() && (#[trigger] rv[j]).entry_id == loc.entry_id@ && rv[j].path == loc.path@;
        let i2: int = if j < before.len() {
            lemma_grouped_index(fs.take(g), rs, j);
            let (g2, i2) = choose|g2: int, i2: int|
                0 <= g2 < fs.take(g).len() && 0 <= i2 < rs.len() && rs[i2] == before[j] && #[trigger] rs[i2].file@
                    == #[trigger] fs.take(g)[g2];
            assert(fs.take(g)[g2] == fs[g2]);
            assert(fs[g2] != fs[g]);
            i2
        } else {
            let a2 = j - before.len();
            assert(prev[j] == rf[a2]);
            lemma_of_file_index(rs, fs[g], a2);
            let i2 = choose|i2: int|
                0 <= i2 < rs.len() && rs[i2] == rf[a2] && rs[i2].file@ == fs[g] && #[trigger] of_file(
                    rs.take(i2),
                    fs[g],
                ).len() == a2;
            i2
        };
        assert(rs[i2] == prev[j]);
        assert(i2 != i);
        assert(same_place(rs[i2], rs[i]));
        if i2 < i {
            assert(bad_record(rs, i));
        } else {
            assert(same_place(rs[i], rs[i2]));
            assert(bad_record(rs, i2));
        }
    }
}

/// The pair line of a record reads back as its source and target.
proof fn lemma_pair_reads(r: Record)
    requires
        record_reads_back(r),
    ensures
        pair_of(pair_line(r)) == Ok::<(Seq<char>, Seq<char>), (Seq<char>, Seq<char>)>((r.source@, r.target@)),
{
    reveal_strlit(" -> ");
    let rest = " -> "@ + json_quoted(r.target@);
    assert(pair_line(r) =~= json_quoted(r.source@) + rest);
    assert(json_leading_string(json_quoted(r.source@) + rest) == Some(
        Ok::<(Seq<char>, Seq<char>), Seq<char>>((r.source@, rest)),
    ));
    assert(rest.take(4) =~= " -> "@);
    assert(rest.skip(4) =~= json_quoted(r.target@));
}

/// The law's preconditions, for the lemmas below.
pub open spec fn written_and_decoded(d: Document, fs: Seq<Seq<char>>, ds: Seq<Decoded>) -> bool {
    &&& document_problem(d) is None
    &&& files_in_order(fs, d.records@)
    &&& strings_read_back(d)
    &&& decodes_as_written(written_frames(d, fs), ds, d)
}

/// Reading the first `a` records of group `g`.
proof fn lemma_walk_records(d: Document, fs: Seq<Seq<char>>, ds: Seq<Decoded>, g: int, a: int)
    requires
        written_and_decoded(d, fs, ds),
        0 <= g < fs.len(),
        0 <= a <= of_file(d.records@, fs[g]).len(),
    ensures
        ({
            let rs = d.records@;
            let frs = written_frames(d, fs);
            let p = group_start(fs, rs, g);
            let before = grouped(fs.take(g), rs);
            walk(frs, ds, p + 1, Some(d.meta), records_view(before), Some(fs[g])) == walk(
                frs,
                ds,
                p + 1 + a,
                Some(d.meta),
                records_view(before + of_file(rs, fs[g]).take(a)),
                Some(fs[g]),
            )
        }),
    decreases a,
{
    let rs = d.records@;
    let frs = written_frames(d, fs);
    let p = group_start(fs, rs, g);
    let before = grouped(fs.take(g), rs);
    let rf = of_file(rs, fs[g]);
    if a == 0 {
        assert(before + rf.take(0) =~= before);
    } else {
        lemma_walk_records(d, fs, ds, g, a - 1);
        let b = a - 1;
        let k = p + 1 + b;
        let x = rf[b];
        lemma_group_at(d, fs, g);
        assert(frs[k] matches FrameView::Location(_, raw, Some((_, t))) && raw == location_json(x) && t
            == pair_line(x));
        lemma_of_file_index(rs, fs[g], b);
        let i = choose|i: int|
            0 <= i < rs.len() && rs[i] == rf[b] && rs[i].file@ == fs[g] && #[trigger] of_file(rs.take(i), fs[g]).len()
                == b;
        assert(ds[k] matches Decoded::Location(Ok(loc)) && location_of(loc, rs[i]));
        let loc = ds[k]->Location_0->Ok_0;
        lemma_no_bad(rs, 0);
        assert(!bad_record(rs, i));
        assert(status_ok(loc.status@));
        lemma_place_free(d, fs, g, b, i, loc);
        assert(record_reads_back(rs[i]));
        lemma_pair_reads(x);
        let prev = before + rf.take(b);
        assert(prev.push(x) =~= before + rf.take(a));
        assert(records_view(prev).push(record_view(x)) =~= records_view(prev.push(x)));
    }
}

proof fn lemma_file_reads_back(d: Document, fs: Seq<Seq<char>>, g: int)
    requires
        strings_read_back(d),
        files_in_order(fs, d.records@),
        0 <= g < fs.len(),
    ensures
        reads_back(fs[g]),
{
    assert(holds_file(d.records@, fs[g]));
    let j = choose|j: int| 0 <= j < d.records@.len() && (#[trigger] d.records@[j]).file@ == fs[g];
    assert(record_reads_back(d.records@[j]));
}

/// Reading the first `g` groups.
proof fn lemma_walk_groups(d: Document, fs: Seq<Seq<char>>, ds: Seq<Decoded>, g: int)
    requires
        written_and_decoded(d, fs, ds),
        0 <= g <= fs.len(),
    ensures
        walk(written_frames(d, fs), ds, 0, None, Seq::empty(), None) == walk(
            written_frames(d, fs),
            ds,
            group_start(fs, d.records@, g),
            Some(d.meta),
            records_view(grouped(fs.take(g), d.records@)),
            if g == 0 { None } else { Some(fs[g - 1]) },
        ),
    decreases g,
{
    let rs = d.records@;
    let frs = written_frames(d, fs);
    if g == 0 {
        assert(fs.take(0) =~= Seq::<Seq<char>>::empty());
        assert(records_view(grouped(fs.take(0), rs)) =~= Seq::<RecordView>::empty());
        assert(frs[0] == FrameView::Meta(3, meta_json(d.meta)));
        assert(ds[0] == Decoded::Meta(Ok::<Meta, String>(d.meta)));
    } else {
        let h = g - 1;
        lemma_walk_groups(d, fs, ds, h);
        lemma_group_at(d, fs, h);
        lemma_file_reads_back(d, fs, h);
        let p = group_start(fs, rs, h);
        if h > 0 {
            assert(fs.take(h)[h - 1] == fs[h - 1]);
        }
        assert(walk(frs, ds, p, Some(d.meta), records_view(grouped(fs.take(h), rs)), if h == 0 { None } else { Some(fs[h - 1]) })
            == walk(frs, ds, p + 1, Some(d.meta), records_view(grouped(fs.take(h), rs)), Some(fs[h])));
        lemma_walk_records(d, fs, ds, h, of_file(rs, fs[h]).len() as int);
        let t = fs.take(g);
        assert(t.drop_last() =~= fs.take(h));
        assert(t.last() == fs[h]);
        let rf = of_file(rs, fs[h]);
        assert(rf.take(rf.len() as int) =~= rf);
        assert(grouped(t, rs) == grouped(fs.take(h), rs) + rf);
    }
}

proof fn lemma_of_file_nonempty(rs: Seq<Record>, f: Seq<char>, i: int)
    requires
        0 <= i < rs.len(),
        rs[i].file@ == f,
    ensures
        of_file(rs, f).len() > 0,
    decreases rs.len(),
{
    reveal(Seq::filter);
    if i < rs.len() - 1 {
        lemma_of_file_nonempty(rs.drop_last(), f, i);
    }
}

proof fn lemma_grouped_len(fs: Seq<Seq<char>>, rs: Seq<Record>, g: int)
    requires
        0 <= g < fs.len(),
    ensures
        grouped(fs, rs).len() >= of_file(rs, fs[g]).len(),
    decreases fs.len(),
{
    if g < fs.len() - 1 {
        lemma_grouped_len(fs.drop_last(), rs, g);
    }
}

/// A CMP file written for a document that can be written reads back as that
/// document, its records grouped by file in the order the file lists the
/// groups, each group keeping the order of the document. The lines of the
/// written text frame as written; and when serde_json reads back the strings
/// it wrote, and the JSON of the meta and location lines decodes to the meta
/// and the locations that were written there, putting the frames together
/// gives back the meta and every record.
pub proof fn law_written_file_reads_back(d: Document, fs: Seq<Seq<char>>, ds: Seq<Decoded>)
    requires
        document_problem(d) is None,
        files_in_order(fs, d.records@),
        strings_read_back(d),
        decodes_as_written(written_frames(d, fs), ds, d),
    ensures
        framing(document_text(d, fs)) == Ok::<Seq<FrameView>, Seq<char>>(written_frames(d, fs)),
        assembled(written_frames(d, fs), ds) == Ok::<(Meta, Seq<RecordView>), (Seq<char>, Seq<char>)>(
            (d.meta, records_view(grouped(fs, d.records@))),
        ),
{
    let rs = d.records@;
    let frs = written_frames(d, fs);
    assert forall|j: int| 0 <= j < fs.len() implies reads_back(#[trigger] fs[j]) by {
        lemma_file_reads_back(d, fs, j);
    }
    lemma_written_framing(d, fs);
    lemma_walk_groups(d, fs, ds, fs.len() as int);
    assert(fs.take(fs.len() as int) =~= fs);
    lemma_group_frames_prefix(fs, rs, 4, fs.len() as int);
    assert(group_start(fs, rs, fs.len() as int) == frs.len());
    // some record is read
    assert(fs.contains(rs[0].file@));
    let g = choose|g: int| 0 <= g < fs.len() && fs[g] == rs[0].file@;
    lemma_of_file_nonempty(rs, fs[g], 0);
    lemma_grouped_len(fs, rs, g);
}

// ---------------------------------------------------------------------------
// Writing again what was read back.

proof fn lemma_of_file_add(a: Seq<Record>, b: Seq<Record>, f: Seq<char>)
    ensures
        of_file(a + b, f) == of_file(a, f) + of_file(b, f),
{
    Seq::filter_distributes_over_add(a, b, |r: Record| r.file@ == f);
}

proof fn lemma_of_file_twice(rs: Seq<Record>, h: Seq<char>, f: Seq<char>)
    ensures
        of_file(of_file(rs, h), f) == if h == f { of_file(rs, f) } else { Seq::empty() },
    decreases rs.len(),
{
    reveal(Seq::filter);
    if rs.len() > 0 {
        lemma_of_file_twice(rs.drop_last(), h, f);
        let p = of_file(rs.drop_last(), h);
        if rs.last().file@ == h {
            assert(of_file(rs, h) == p.push(rs.last()));
            assert(of_file(rs, h).drop_last() =~= p);
        }
    } else {
        assert(of_file(rs, h) =~= Seq::<Record>::empty());
    }
}

/// Grouping keeps the records of each listed file, in their order.
proof fn lemma_grouped_of_file(fs: Seq<Seq<char>>, rs: Seq<Record>, f: Seq<char>)
    requires
        forall|i: int, j: int| 0 <= i < j < fs.len() ==> fs[i] != fs[j],
    ensures
        of_file(grouped(fs, rs), f) == if fs.contains(f) { of_file(rs, f) } else { Seq::empty() },
    decreases fs.len(),
{
    if fs.len() == 0 {
        reveal(Seq::filter);
        assert(of_file(Seq::<Record>::empty(), f) =~= Seq::<Record>::empty());
    } else {
        let q = fs.drop_last();
        assert forall|i: int, j: int| 0 <= i < j < q.len() implies q[i] != q[j] by {
            assert(q[i] == fs[i] && q[j] == fs[j]);
        }
        lemma_grouped_of_file(q, rs, f);
        lemma_of_file_add(grouped(q, rs), of_file(rs, fs.last()), f);
        lemma_of_file_twice(rs, fs.last(), f);
        if fs.last() == f {
            assert(!q.contains(f)) by {
                if q.contains(f) {
                    let i = choose|i: int| 0 <= i < q.len() && q[i] == f;
                    assert(fs[i] == fs[fs.len() - 1]);
                }
            }
            assert(fs.contains(f)) by {
                assert(fs[fs.len() - 1] == f);
            }
            assert(Seq::<Record>::empty() + of_file(rs, f) =~= of_file(rs, f));
        } else {
            assert(fs.contains(f) == q.contains(f)) by {
                if fs.contains(f) {
                    let i = choose|i: int| 0 <= i < fs.len() && fs[i] == f;
                    assert(q[i] == f);
                }
                if q.contains(f) {
                    let i = choose|i: int| 0 <= i < q.len() && q[i] == f;
                    assert(fs[i] == f);
                }
            }
            assert(of_file(grouped(q, rs), f) + Seq::<Record>::empty() =~= of_file(grouped(q, rs), f));
        }
    }
}

proof fn lemma_of_file_views(a: Seq<Record>, b: Seq<Record>, f: Seq<char>)
    requires
        records_view(a) == records_view(b),
    ensures
        records_view(of_file(a, f)) == records_view(of_file(b, f)),
    decreases a.len(),
{
    reveal(Seq::filter);
    assert(a.len() == records_view(a).len() == records_view(b).len() == b.len());
    if a.len() > 0 {
        assert(records_view(a.drop_last()) =~= records_view(a).drop_last());
        assert(records_view(b.drop_last()) =~= records_view(b).drop_last());
        lemma_of_file_views(a.drop_last(), b.drop_last(), f);
        assert(record_view(a.last()) == records_view(a)[a.len() - 1]);
        assert(record_view(b.last()) == records_view(b)[b.len() - 1]);
        let pa = of_file(a.drop_last(), f);
        let pb = of_file(b.drop_last(), f);
        if a.last().file@ == f {
            assert(records_view(pa.push(a.last())) =~= records_view(pa).push(record_view(a.last())));
            assert(records_view(pb.push(b.last())) =~= records_view(pb).push(record_view(b.last())));
        }
    } else {
        assert(of_file(a, f) =~= Seq::<Record>::empty());
        assert(of_file(b, f) =~= Seq::<Record>::empty());
    }
}

proof fn lemma_records_text_views(a: Seq<Record>, b: Seq<Record>)
    requires
        records_view(a) == records_view(b),
    ensures
        records_text(a) == records_text(b),
    decreases a.len(),
{
    assert(a.len() == records_view(a).len() == records_view(b).len() == b.len());
    if a.len() > 0 {
        assert(records_view(a.drop_last()) =~= records_view(a).drop_last());
        assert(records_view(b.drop_last()) =~= records_view(b).drop_last());
        lemma_records_text_views(a.drop_last(), b.drop_last());
        assert(record_view(a.last()) == records_view(a)[a.len() - 1]);
        assert(record_view(b.last()) == records_view(b)[b.len() - 1]);
    }
}

proof fn lemma_groups_text_same(fs: Seq<Seq<char>>, a: Seq<Record>, b: Seq<Record>)
    requires
        forall|i: int| 0 <= i < fs.len() ==> records_view(of_file(a, #[trigger] fs[i])) == records_view(of_file(b, fs[i])),
    ensures
        groups_text(fs, a) == groups_text(fs, b),
    decreases fs.len(),
{
    if fs.len() > 0 {
        let q = fs.drop_last();
        assert forall|i: int| 0 <= i < q.len() implies records_view(of_file(a, #[trigger] q[i])) == records_view(of_file(b, q[i])) by {
            assert(q[i] == fs[i]);
        }
        lemma_groups_text_same(q, a, b);
        assert(records_view(of_file(a, fs[fs.len() - 1])) == records_view(of_file(b, fs[fs.len() - 1])));
        lemma_records_text_views(of_file(a, fs.last()), of_file(b, fs.last()));
    }
}

/// Records read back from a written file, written again, give the text that
/// was first written: the files are still each listed once in ascending
/// order, that order is the only one, and each file keeps its records in order.
pub proof fn law_rewriting_gives_the_same_text(d: Document, fs: Seq<Seq<char>>, again: Seq<Record>)
    requires
        files_in_order(fs, d.records@),
        records_view(again) == records_view(grouped(fs, d.records@)),
    ensures
        files_in_order(fs, again),
        forall|other: Seq<Seq<char>>| #[trigger] files_in_order(other, again) ==> groups_text(other, again) == groups_text(
            fs,
            d.records@,
        ),
{
    let rs = d.records@;
    let g = grouped(fs, rs);
    assert(again.len() == records_view(again).len() == records_view(g).len() == g.len());
    assert forall|i: int| 0 <= i < fs.len() implies records_view(of_file(again, #[trigger] fs[i])) == records_view(of_file(rs, fs[i])) by {
        lemma_of_file_views(again, g, fs[i]);
        lemma_grouped_of_file(fs, rs, fs[i]);
        assert(fs.contains(fs[i]));
    }
    lemma_groups_text_same(fs, again, rs);
    // each listed file still holds a record
    assert forall|i: int| 0 <= i < fs.len() implies holds_file(again, #[trigger] fs[i]) by {
        assert(holds_file(rs, fs[i]));
        let j = choose|j: int| 0 <= j < rs.len() && (#[trigger] rs[j]).file@ == fs[i];
        lemma_of_file_nonempty(rs, fs[i], j);
        lemma_grouped_of_file(fs, rs, fs[i]);
        assert(fs.contains(fs[i]));
        lemma_of_file_views(again, g, fs[i]);
        let got = of_file(again, fs[i]);
        assert(records_view(got).len() > 0);
        lemma_of_file_index(again, fs[i], 0);
        let k = choose|k: int| 0 <= k < again.len() && again[k] == got[0] && again[k].file@ == fs[i] && #[trigger] of_file(
            again.take(k),
            fs[i],
        ).len() == 0;
        assert(again[k].file@ == fs[i]);
    }
    // each record's file is listed
    assert forall|j: int| 0 <= j < again.len() implies fs.contains((#[trigger] again[j]).file@) by {
        lemma_grouped_index(fs, rs, j);
        let (gi, i) = choose|gi: int, i: int| 0 <= gi < fs.len() && 0 <= i < rs.len() && rs[i] == g[j] && #[trigger] rs[i].file@
            == #[trigger] fs[gi];
        assert(record_view(again[j]) == records_view(again)[j]);
        assert(records_view(g)[j] == record_view(g[j]));
        assert(again[j].file@ == fs[gi]);
    }
    assert forall|other: Seq<Seq<char>>| #[trigger] files_in_order(other, again) implies groups_text(other, again) == groups_text(
        fs,
        rs,
    ) by {
        law_file_order_is_unique(fs, other, again);
    }
}

proof fn lemma_lex_irreflexive(a: Seq<char>)
    ensures
        !lex_lt(a, a),
    decreases a.len(),
{
    if a.len() > 0 {
        lemma_lex_irreflexive(a.drop_first());
    }
}

proof fn lemma_lex_total(a: Seq<char>, b: Seq<char>)
    requires
        a != b,
    ensures
        lex_lt(a, b) || lex_lt(b, a),
    decreases a.len(),
{
    if a.len() > 0 && b.len() > 0 {
        if a[0] == b[0] {
            if a.drop_first() == b.drop_first() {
                assert(a =~= seq![a[0]] + a.drop_first());
                assert(b =~= seq![b[0]] + b.drop_first());
            }
            lemma_lex_total(a.drop_first(), b.drop_first());
        } else {
            vstd::utf8::char_u32_cast(a[0], a[0] as u32);
            vstd::utf8::char_u32_cast(b[0], b[0] as u32);
        }
    } else if a.len() == 0 && b.len() == 0 {
        assert(a =~= b);
    }
}

proof fn lemma_lex_transitive(a: Seq<char>, b: Seq<char>, c: Seq<char>)
    requires
        lex_lt(a, b),
        lex_lt(b, c),
    ensures
        lex_lt(a, c),
    decreases a.len(),
{
    if a.len() > 0 && b.len() > 0 && c.len() > 0 && a[0] == b[0] && b[0] == c[0] {
        lemma_lex_transitive(a.drop_first(), b.drop_first(), c.drop_first());
    }
}

/// The files of a file order come in ascending order.
proof fn lemma_files_ascending(fs: Seq<Seq<char>>, rs: Seq<Record>)
    requires
        files_in_order(fs, rs),
    ensures
        forall|i: int, j: int| 0 <= i < j < fs.len() ==> lex_lt(#[trigger] fs[i], #[trigger] fs[j]),
{
    assert forall|i: int, j: int| 0 <= i < j < fs.len() implies lex_lt(#[trigger] fs[i], #[trigger] fs[j]) by {
        lemma_ascending_from(fs, rs, i, j);
    }
}

proof fn lemma_ascending_from(fs: Seq<Seq<char>>, rs: Seq<Record>, i: int, j: int)
    requires
        files_in_order(fs, rs),
        0 <= i < j < fs.len(),
    ensures
        lex_lt(fs[i], fs[j]),
    decreases j - i,
{
    assert(!lex_lt(fs[j], fs[j - 1]));
    assert(fs[j - 1] != fs[j]);
    lemma_lex_total(fs[j - 1], fs[j]);
    if i < j - 1 {
        lemma_ascending_from(fs, rs, i, j - 1);
        lemma_lex_transitive(fs[i], fs[j - 1], fs[j]);
    }
}

/// Two ascending lists of the same files are the same.
proof fn lemma_ascending_unique(a: Seq<Seq<char>>, b: Seq<Seq<char>>)
    requires
        forall|i: int, j: int| 0 <= i < j < a.len() ==> lex_lt(#[trigger] a[i], #[trigger] a[j]),
        forall|i: int, j: int| 0 <= i < j < b.len() ==> lex_lt(#[trigger] b[i], #[trigger] b[j]),
        forall|x: Seq<char>| a.contains(x) <==> b.contains(x),
    ensures
        a == b,
    decreases a.len() + b.len(),
{
    if a.len() == 0 {
        if b.len() > 0 {
            assert(b.contains(b[0]));
        }
        assert(a =~= b);
    } else if b.len() == 0 {
        assert(a.contains(a[0]));
    } else {
        // the first of each is the smallest of the files
        assert(a.contains(a[0]));
        let j = choose|j: int| 0 <= j < b.len() && b[j] == a[0];
        assert(b.contains(b[0]));
        let i = choose|i: int| 0 <= i < a.len() && a[i] == b[0];
        if j > 0 && i > 0 {
            assert(lex_lt(b[0], b[j]));
            assert(lex_lt(a[0], a[i]));
            lemma_lex_transitive(a[0], a[i], a[0]);
            lemma_lex_irreflexive(a[0]);
        } else if j > 0 {
            assert(a[0] == b[0]);
            assert(lex_lt(b[0], b[j]));
            lemma_lex_irreflexive(a[0]);
        } else if i > 0 {
            assert(a[0] == b[0]);
            assert(lex_lt(a[0], a[i]));
            lemma_lex_irreflexive(b[0]);
        }
        assert(a[0] == b[0]);
        let ra = a.drop_first();
        let rb = b.drop_first();
        assert forall|x: Seq<char>| ra.contains(x) <==> rb.contains(x) by {
            if ra.contains(x) {
                let k = choose|k: int| 0 <= k < ra.len() && ra[k] == x;
                assert(a[k + 1] == x);
                assert(lex_lt(a[0], a[k + 1]));
                assert(b.contains(x));
                let l = choose|l: int| 0 <= l < b.len() && b[l] == x;
                if l == 0 {
                    lemma_lex_irreflexive(x);
                }
                assert(rb[l - 1] == x);
            }
            if rb.contains(x) {
                let k = choose|k: int| 0 <= k < rb.len() && rb[k] == x;
                assert(b[k + 1] == x);
                assert(lex_lt(b[0], b[k + 1]));
                assert(a.contains(x));
                let l = choose|l: int| 0 <= l < a.len() && a[l] == x;
                if l == 0 {
                    lemma_lex_irreflexive(x);
                }
                assert(ra[l - 1] == x);
            }
        }
        assert forall|i: int, j: int| 0 <= i < j < ra.len() implies lex_lt(#[trigger] ra[i], #[trigger] ra[j]) by {
            assert(ra[i] == a[i + 1] && ra[j] == a[j + 1]);
        }
        assert forall|i: int, j: int| 0 <= i < j < rb.len() implies lex_lt(#[trigger] rb[i], #[trigger] rb[j]) by {
            assert(rb[i] == b[i + 1] && rb[j] == b[j + 1]);
        }
        lemma_ascending_unique(ra, rb);
        assert(a =~= seq![a[0]] + ra);
        assert(b =~= seq![b[0]] + rb);
    }
}

/// The order of the files of some records is the only one.
pub proof fn law_file_order_is_unique(fs: Seq<Seq<char>>, other: Seq<Seq<char>>, rs: Seq<Record>)
    requires
        files_in_order(fs, rs),
        files_in_order(other, rs),
    ensures
        fs == other,
{
    lemma_files_ascending(fs, rs);
    lemma_files_ascending(other, rs);
    assert forall|x: Seq<char>| fs.contains(x) <==> other.contains(x) by {
        if fs.contains(x) {
            let i = choose|i: int| 0 <= i < fs.len() && fs[i] == x;
            assert(holds_file(rs, fs[i]));
            let j = choose|j: int| 0 <= j < rs.len() && (#[trigger] rs[j]).file@ == fs[i];
            assert(other.contains(rs[j].file@));
        }
        if other.contains(x) {
            let i = choose|i: int| 0 <= i < other.len() && other[i] == x;
            assert(holds_file(rs, other[i]));
            let j = choose|j: int| 0 <= j < rs.len() && (#[trigger] rs[j]).file@ == other[i];
            assert(fs.contains(rs[j].file@));
        }
    }
    lemma_ascending_unique(fs, other);
}

} // verus!
