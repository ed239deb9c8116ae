//! What a scan of a task book decides: which kind of source it holds and
//! how batch sizes are read.

use crate::error::{AppError, ErrorCode};
use crate::text::{chars_of, lower_all, lowercase, str_eq, trim, trimmed};
use vstd::prelude::*;

verus! {

/// The value of the decimal digit `c`.
pub open spec fn digit_value(c: char) -> nat {
    ((c as u32) - ('0' as u32)) as nat
}

/// The number that the decimal digits `s` write.
pub open spec fn digits_value(s: Seq<char>) -> nat
    decreases s.len(),
{
    if s.len() == 0 {
        0
    } else {
        digits_value(s.drop_last()) * 10 + digit_value(s.last())
    }
}

pub open spec fn all_digits(s: Seq<char>) -> bool {
    forall|i: int| 0 <= i < s.len() ==> '0' <= #[trigger] s[i] && s[i] <= '9'
}

/// What `str::parse::<usize>` reads: an optional `+` and at least one digit,
/// whose value must fit.
pub open spec fn usize_read(s: Seq<char>) -> Option<nat> {
    let d = if s.len() > 0 && s[0] == '+' { s.drop_first() } else { s };
    if d.len() > 0 && all_digits(d) && digits_value(d) <= usize::MAX {
        Some(digits_value(d))
    } else {
        None
    }
}

/// Reads a `usize` as `str::parse` does.
pub fn parse_usize(s: &str) -> (r: Option<usize>)
    ensures
        match usize_read(s@) {
            Some(n) => r == Some(n as usize),
            None => r is None,
        },
{
    let v = chars_of(s);
    let start: usize = if v.len() > 0 && v[0] == '+' { 1 } else { 0 };
    let ghost d = if s@.len() > 0 && s@[0] == '+' { s@.drop_first() } else { s@ };
    assert(d =~= v@.skip(start as int));
    if start == v.len() {
        return None;
    }
    let mut n: usize = 0;
    let mut i: usize = start;
    while i < v.len()
        invariant
            start <= i <= v.len(),
            v@ == s@,
            d == (if s@.len() > 0 && s@[0] == '+' { s@.drop_first() } else { s@ }),
            d == v@.skip(start as int),
            d.len() > 0,
            all_digits(d.take(i - start)),
            n == digits_value(d.take(i - start)),
        decreases v.len() - i,
    {
        let c = v[i];
        if c < '0' || c > '9' {
            assert(d[i - start] == c);
            assert(!all_digits(d));
            return None;
        }
        let dv = (c as u32 - '0' as u32) as usize;
        proof {
            assert(d.take(i - start + 1).drop_last() =~= d.take(i - start));
            assert(d.take(i - start + 1).last() == c);
        }
        if n > (usize::MAX - dv) / 10 {
            proof {
                lemma_digits_prefix(d, i - start + 1);
                let m = usize::MAX as int;
                assert(n * 10 + dv > m) by (nonlinear_arith)
                    requires
                        n > (m - dv) / 10,
                        0 <= dv <= 9,
                        dv <= m,
                ;
            }
            return None;
        }
        n = n * 10 + dv;
        i += 1;
    }
    assert(d.take(i - start) =~= d);
    Some(n)
}

proof fn lemma_digits_prefix(d: Seq<char>, k: int)
    requires
        0 <= k <= d.len(),
        all_digits(d.take(k)),
    ensures
        all_digits(d) ==> digits_value(d.take(k)) <= digits_value(d),
    decreases d.len(),
{
    if k < d.len() {
        assert(d.drop_last().take(k) =~= d.take(k));
        if all_digits(d) {
            assert(all_digits(d.drop_last()));
            lemma_digits_prefix(d.drop_last(), k);
        }
    } else {
        assert(d.take(k) =~= d);
    }
}

pub open spec fn parse_auto_error() -> Seq<char> {
    "批大小与并发数必须是 auto 或正整数"@
}

/// A batch size or a concurrency: `auto` (in any ASCII case) or blank gives
/// `default`; otherwise a positive whole number.
pub open spec fn auto_value(s: Seq<char>, default: nat) -> Option<nat> {
    if trim(s).len() == 0 || lower_all(s) == "auto"@ {
        Some(default)
    } else {
        match usize_read(s) {
            Some(n) => if n > 0 { Some(n) } else { None },
            None => None,
        }
    }
}

/// Reads a batch size or a concurrency setting.
pub fn parse_auto(s: &str, default: usize) -> (r: Result<usize, String>)
    ensures
        match auto_value(s@, default as nat) {
            Some(n) => r == Ok::<usize, String>(n as usize),
            None => r matches Err(m) && m@ == parse_auto_error(),
        },
{
    let t = trimmed(s);
    let l = lowercase(s);
    if t.as_str().is_empty() || str_eq(l.as_str(), "auto") {
        return Ok(default);
    }
    match parse_usize(s) {
        Some(n) => {
            if n > 0 {
                Ok(n)
            } else {
                Err(crate::text::owned("批大小与并发数必须是 auto 或正整数"))
            }
        },
        None => Err(crate::text::owned("批大小与并发数必须是 auto 或正整数")),
    }
}

/// The kind of a task book: a language file if it has one, else chapter files.
pub fn mode(has_lang: bool, has_chapters: bool) -> (r: Result<&'static str, String>)
    ensures
        has_lang ==> (r matches Ok(m) && m@ == "lang"@),
        !has_lang && has_chapters ==> (r matches Ok(m) && m@ == "chapters"@),
        !has_lang && !has_chapters ==> (r matches Err(e) && e@ == "任务书目录中没有可翻译内容"@),
{
    if has_lang {
        Ok("lang")
    } else if has_chapters {
        Ok("chapters")
    } else {
        Err(crate::text::owned("任务书目录中没有可翻译内容"))
    }
}

/// The label of a kind of task book shown to the user.
pub fn mode_label(mode: &str) -> (s: &'static str)
    ensures
        mode@ == "lang"@ ==> s@ == "语言文件"@,
        mode@ != "lang"@ ==> s@ == "章节文件"@,
{
    if str_eq(mode, "lang") { "语言文件" } else { "章节文件" }
}

/// How many batches of `batch` entries `count` entries make, the last one
/// possibly short.
pub fn estimated_batches(count: usize, batch: usize) -> (n: usize)
    requires
        batch > 0,
    ensures
        n as int == (count as int + batch as int - 1) / batch as int,
{
    let q = count / batch;
    let r = count % batch;
    proof {
        let c = count as int;
        let b = batch as int;
        assert(c == q * b + r && 0 <= r < b) by (nonlinear_arith)
            requires
                q == c / b,
                r == c % b,
                b > 0,
        ;
        assert((c + b - 1) / b == if r == 0 { q as int } else { q + 1 }) by (nonlinear_arith)
            requires
                c == q * b + r,
                0 <= r < b,
                b > 0,
        ;
        if r != 0 {
            assert(q < c) by (nonlinear_arith)
                requires
                    c == q * b + r,
                    0 < r < b,
                    b > 0,
                    q >= 0,
            ;
        }
    }
    if r == 0 { q } else { q + 1 }
}

/// The status of an entry whose translation request failed.
pub fn request_failure_status(error: &AppError) -> (s: &'static str)
    ensures
        error.code == ErrorCode::RateLimited ==> s@ == "rate_limited"@,
        error.code != ErrorCode::RateLimited ==> s@ == "request_failed"@,
{
    if error.code == ErrorCode::RateLimited { "rate_limited" } else { "request_failed" }
}


// ---------------------------------------------------------------------------
// Locating the task book: the directories tried, in order. A path is the
// sequence of its components.

pub open spec fn path_view(p: Vec<String>) -> Seq<Seq<char>> {
    p@.map_values(|c: String| c@)
}

pub open spec fn paths_view(ps: Seq<Vec<String>>) -> Seq<Seq<Seq<char>>> {
    ps.map_values(|p: Vec<String>| path_view(p))
}

/// The parent of a selected `lang` or `chapters` directory.
pub open spec fn parent_candidate(s: Seq<Seq<char>>) -> Seq<Seq<Seq<char>>> {
    if s.len() > 0 && (s.last() == "lang"@ || s.last() == "chapters"@) {
        seq![s.drop_last()]
    } else {
        Seq::empty()
    }
}

/// What an ancestor `a` offers: itself when named `quests`, its `quests`
/// when named `ftbquests`, its `ftbquests/quests` when named `config`.
pub open spec fn ancestor_candidate(a: Seq<Seq<char>>) -> Seq<Seq<Seq<char>>> {
    if a.len() == 0 {
        Seq::empty()
    } else if a.last() == "quests"@ {
        seq![a]
    } else if a.last() == "ftbquests"@ {
        seq![a.push("quests"@)]
    } else if a.last() == "config"@ {
        seq![a.push("ftbquests"@).push("quests"@)]
    } else {
        Seq::empty()
    }
}

/// What the ancestors of `s` offer, from the prefix of length `k` down to the
/// shortest.
pub open spec fn ancestor_candidates(s: Seq<Seq<char>>, k: int) -> Seq<Seq<Seq<char>>>
    decreases k,
{
    if k <= 0 {
        Seq::empty()
    } else {
        ancestor_candidate(s.take(k)) + ancestor_candidates(s, k - 1)
    }
}

/// The usual places of the task book below the selection.
pub open spec fn below_candidates(s: Seq<Seq<char>>) -> Seq<Seq<Seq<char>>> {
    seq![
        s.push("config"@).push("ftbquests"@).push("quests"@),
        s.push("ftbquests"@).push("quests"@),
        s.push("quests"@),
    ]
}

/// The directories found below the selection that are named `quests`.
pub open spec fn named_quests(found: Seq<Seq<Seq<char>>>) -> Seq<Seq<Seq<char>>> {
    found.filter(|p: Seq<Seq<char>>| p.len() > 0 && p.last() == "quests"@)
}

/// The directories tried, in order, for the selection `s` (canonical), where
/// `found` are the directories below it in walk order: the selection; its
/// parent when it is `lang` or `chapters`; what its ancestors offer; the
/// usual places below it; and the `quests` directories found below it.
pub open spec fn candidates(s: Seq<Seq<char>>, found: Seq<Seq<Seq<char>>>) -> Seq<Seq<Seq<char>>> {
    seq![s] + parent_candidate(s) + ancestor_candidates(s, s.len() as int) + below_candidates(s) + named_quests(found)
}

fn path_copy(p: &Vec<String>) -> (r: Vec<String>)
    ensures
        path_view(r) == path_view(*p),
{
    let mut r: Vec<String> = Vec::new();
    let mut i: usize = 0;
    while i < p.len()
        invariant
            i <= p.len(),
            path_view(r) == path_view(*p).take(i as int),
        decreases p.len() - i,
    {
        let ghost before = r@;
        r.push(crate::text::owned(p[i].as_str()));
        assert(r@ =~= before.push(r@.last()));
        assert(path_view(r) =~= path_view(*p).take(i as int).push(p@[i as int]@));
        assert(path_view(r) =~= path_view(*p).take(i + 1));
        i += 1;
    }
    assert(path_view(*p).take(p.len() as int) =~= path_view(*p));
    r
}

fn path_prefix(p: &Vec<String>, k: usize) -> (r: Vec<String>)
    requires
        k <= p.len(),
    ensures
        path_view(r) == path_view(*p).take(k as int),
{
    let mut r: Vec<String> = Vec::new();
    let mut i: usize = 0;
    while i < k
        invariant
            i <= k <= p.len(),
            path_view(r) == path_view(*p).take(i as int),
        decreases k - i,
    {
        let ghost before = r@;
        r.push(crate::text::owned(p[i].as_str()));
        assert(r@ =~= before.push(r@.last()));
        assert(path_view(r) =~= path_view(*p).take(i as int).push(p@[i as int]@));
        assert(path_view(r) =~= path_view(*p).take(i + 1));
        i += 1;
    }
    r
}

fn path_push(p: &Vec<String>, c: &str) -> (r: Vec<String>)
    ensures
        path_view(r) == path_view(*p).push(c@),
{
    let mut r = path_copy(p);
    r.push(crate::text::owned(c));
    assert(path_view(r) =~= path_view(*p).push(c@));
    r
}

fn push_candidate(out: &mut Vec<Vec<String>>, p: Vec<String>)
    ensures
        paths_view(final(out)@) == paths_view(old(out)@).push(path_view(p)),
{
    out.push(p);
    assert(paths_view(out@) =~= paths_view(old(out)@).push(path_view(p)));
}

/// The directories to try, in order, to find the task book from the
/// selection `selected` (canonical, by components); `found` are the
/// directories below it, as a walk of at most five levels finds them.
pub fn task_book_candidates(selected: &Vec<String>, found: &Vec<Vec<String>>) -> (r: Vec<Vec<String>>)
    ensures
        paths_view(r@) == candidates(path_view(*selected), paths_view(found@)),
{
    let ghost s = path_view(*selected);
    let mut out: Vec<Vec<String>> = Vec::new();
    assert(paths_view(out@) =~= Seq::<Seq<Seq<char>>>::empty());
    push_candidate(&mut out, path_copy(selected));
    assert(paths_view(out@) =~= seq![s]);
    let n = selected.len();
    if n > 0 && (str_eq(selected[n - 1].as_str(), "lang") || str_eq(selected[n - 1].as_str(), "chapters")) {
        push_candidate(&mut out, path_prefix(selected, n - 1));
        assert(s.take(n - 1) =~= s.drop_last());
    }
    assert(paths_view(out@) =~= seq![s] + parent_candidate(s));
    let mut k: usize = n;
    assert(ancestor_candidates(s, n as int) =~= ancestor_candidates(s, n as int).skip(0));
    while k > 0
        invariant
            k <= n,
            n == selected.len(),
            s == path_view(*selected),
            paths_view(out@) + ancestor_candidates(s, k as int) == seq![s] + parent_candidate(s) + ancestor_candidates(s, n as int),
        decreases k,
    {
        let ghost before = paths_view(out@);
        let a = path_prefix(selected, k);
        let last = a[k - 1].as_str();
        if str_eq(last, "quests") {
            push_candidate(&mut out, path_copy(&a));
        } else if str_eq(last, "ftbquests") {
            push_candidate(&mut out, path_push(&a, "quests"));
        } else if str_eq(last, "config") {
            let b = path_push(&a, "ftbquests");
            push_candidate(&mut out, path_push(&b, "quests"));
        }
        assert(path_view(a).last() == last@);
        assert(paths_view(out@) =~= before + ancestor_candidate(s.take(k as int)));
        assert(ancestor_candidates(s, k as int) == ancestor_candidate(s.take(k as int)) + ancestor_candidates(s, k - 1));
        assert(before + ancestor_candidates(s, k as int) =~= (before + ancestor_candidate(s.take(k as int))) + ancestor_candidates(s, k - 1));
        k -= 1;
    }
    assert(paths_view(out@) + Seq::<Seq<Seq<char>>>::empty() =~= paths_view(out@));
    let ghost head = paths_view(out@);
    let c = path_push(selected, "config");
    let c = path_push(&c, "ftbquests");
    push_candidate(&mut out, path_push(&c, "quests"));
    let f = path_push(selected, "ftbquests");
    push_candidate(&mut out, path_push(&f, "quests"));
    push_candidate(&mut out, path_push(selected, "quests"));
    assert(paths_view(out@) =~= head + below_candidates(s));
    let ghost fv = paths_view(found@);
    let ghost mid = paths_view(out@);
    let mut j: usize = 0;
    assert(fv.take(0).filter(|p: Seq<Seq<char>>| p.len() > 0 && p.last() == "quests"@) =~= Seq::<Seq<Seq<char>>>::empty()) by {
        reveal(Seq::filter);
    }
    while j < found.len()
        invariant
            j <= found.len(),
            fv == paths_view(found@),
            paths_view(out@) == mid + named_quests(fv.take(j as int)),
        decreases found.len() - j,
    {
        let ghost before = paths_view(out@);
        let p = &found[j];
        assert(fv.take(j + 1).drop_last() =~= fv.take(j as int));
        assert(fv.take(j + 1).last() == path_view(*p));
        proof {
            reveal(Seq::filter);
        }
        if p.len() > 0 && str_eq(p[p.len() - 1].as_str(), "quests") {
            push_candidate(&mut out, path_copy(p));
            assert(named_quests(fv.take(j + 1)) == named_quests(fv.take(j as int)).push(path_view(*p)));
            assert(paths_view(out@) =~= mid + named_quests(fv.take(j + 1)));
        } else {
            assert(named_quests(fv.take(j + 1)) == named_quests(fv.take(j as int)));
        }
        j += 1;
    }
    assert(fv.take(found.len() as int) =~= fv);
    out
}

/// The first index whose flag is set.
pub fn first_with_content(flags: &Vec<bool>) -> (r: Option<usize>)
    ensures
        match r {
            Some(i) => i < flags@.len() && flags@[i as int] && forall|k: int| 0 <= k < i ==> !flags@[k],
            None => forall|k: int| 0 <= k < flags@.len() ==> !flags@[k],
        },
{
    let mut i: usize = 0;
    while i < flags.len()
        invariant
            i <= flags.len(),
            forall|k: int| 0 <= k < i ==> !flags@[k],
        decreases flags.len() - i,
    {
        if flags[i] {
            return Some(i);
        }
        i += 1;
    }
    None
}

} // verus!
